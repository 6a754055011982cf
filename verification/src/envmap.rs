//! Environment variables: a map from names to values kept sorted by name, so
//! that walking it gives the names in ascending order.
use vstd::prelude::*;
use crate::text::chars_of;

verus! {

/// Lexicographic order of strings by code point (the order of `String`'s `Ord`,
/// which compares the UTF-8 bytes).
pub open spec fn str_lt(a: Seq<char>, b: Seq<char>) -> bool
    decreases a.len(),
{
    if b.len() == 0 {
        false
    } else if a.len() == 0 {
        true
    } else if a[0] != b[0] {
        (a[0] as int) < (b[0] as int)
    } else {
        str_lt(a.drop_first(), b.drop_first())
    }
}

pub proof fn lemma_str_lt_irrefl(a: Seq<char>)
    ensures
        !str_lt(a, a),
    decreases a.len(),
{
    if a.len() > 0 {
        lemma_str_lt_irrefl(a.drop_first());
    }
}

pub proof fn lemma_str_lt_asym(a: Seq<char>, b: Seq<char>)
    ensures
        str_lt(a, b) ==> !str_lt(b, a),
    decreases a.len(),
{
    if a.len() > 0 && b.len() > 0 && a[0] == b[0] {
        lemma_str_lt_asym(a.drop_first(), b.drop_first());
    }
}

pub proof fn lemma_str_lt_trans(a: Seq<char>, b: Seq<char>, c: Seq<char>)
    requires
        str_lt(a, b),
        str_lt(b, c),
    ensures
        str_lt(a, c),
    decreases a.len(),
{
    if a.len() > 0 && a[0] == b[0] && b[0] == c[0] {
        lemma_str_lt_trans(a.drop_first(), b.drop_first(), c.drop_first());
    }
}

pub proof fn lemma_str_lt_total(a: Seq<char>, b: Seq<char>)
    ensures
        a == b || str_lt(a, b) || str_lt(b, a),
    decreases a.len(),
{
    if a.len() > 0 && b.len() > 0 && a[0] == b[0] {
        lemma_str_lt_total(a.drop_first(), b.drop_first());
        if a.drop_first() == b.drop_first() {
            assert(a =~= seq![a[0]] + a.drop_first());
            assert(b =~= seq![b[0]] + b.drop_first());
        }
    } else if a.len() == 0 && b.len() == 0 {
        assert(a =~= b);
    } else if a.len() > 0 && b.len() > 0 {
        assert((a[0] as int) != (b[0] as int));
    }
}

/// Strict `a[lo..] < b[lo..]` with equal prefixes: one step of the comparison.
proof fn lemma_str_lt_step(a: Seq<char>, b: Seq<char>, i: int)
    requires
        0 <= i < a.len(),
        i < b.len(),
        a[i] == b[i],
    ensures
        str_lt(a.skip(i), b.skip(i)) == str_lt(a.skip(i + 1), b.skip(i + 1)),
{
    assert(a.skip(i).drop_first() =~= a.skip(i + 1));
    assert(b.skip(i).drop_first() =~= b.skip(i + 1));
}

/// Compares two character strings in code-point order.
pub fn str_less(a: &[char], b: &[char]) -> (r: bool)
    ensures
        r == str_lt(a@, b@),
{
    let mut i: usize = 0;
    assert(a@.skip(0) =~= a@);
    assert(b@.skip(0) =~= b@);
    while i < a.len() && i < b.len() && a[i] == b[i]
        invariant
            i <= a.len(),
            i <= b.len(),
            str_lt(a@, b@) == str_lt(a@.skip(i as int), b@.skip(i as int)),
        decreases a.len() - i,
    {
        proof {
            lemma_str_lt_step(a@, b@, i as int);
        }
        i += 1;
    }
    if i >= b.len() {
        assert(b@.skip(i as int).len() == 0);
        false
    } else if i >= a.len() {
        assert(a@.skip(i as int).len() == 0);
        true
    } else {
        assert(a@.skip(i as int)[0] == a@[i as int]);
        assert(b@.skip(i as int)[0] == b@[i as int]);
        a[i] < b[i]
    }
}

/// Compares two character strings for equality.
pub fn chars_eq(a: &[char], b: &[char]) -> (r: bool)
    ensures
        r == (a@ == b@),
{
    if a.len() != b.len() {
        return false;
    }
    let mut i: usize = 0;
    while i < a.len()
        invariant
            i <= a.len() == b.len(),
            a@.take(i as int) == b@.take(i as int),
        decreases a.len() - i,
    {
        if a[i] != b[i] {
            assert(a@[i as int] != b@[i as int]);
            return false;
        }
        i += 1;
        assert(a@.take(i as int) =~= b@.take(i as int)) by {
            assert forall|j: int| 0 <= j < i implies a@[j] == b@[j] by {
                if j < i - 1 {
                    assert(a@.take(i - 1)[j] == b@.take(i - 1)[j]);
                }
            }
        }
    }
    assert(a@ =~= a@.take(a.len() as int));
    assert(b@ =~= b@.take(b.len() as int));
    true
}

/// `a < b` in code-point order, for a stored key against a looked-up one.
fn key_less(a: &String, b: &[char]) -> (r: bool)
    ensures
        r == str_lt(a@, b@),
{
    let ac = chars_of(a.as_str());
    str_less(&ac, b)
}

/// `a == b`, for a stored key against a looked-up one.
fn key_eq(a: &String, b: &[char]) -> (r: bool)
    ensures
        r == (a@ == b@),
{
    let ac = chars_of(a.as_str());
    chars_eq(&ac, b)
}

/// Keys strictly ascending.
pub open spec fn sorted_keys(e: Seq<(Seq<char>, Seq<char>)>) -> bool {
    forall|i: int, j: int| 0 <= i < j < e.len() ==> str_lt(#[trigger] e[i].0, #[trigger] e[j].0)
}

/// The value bound to `k`, if any.
pub open spec fn env_lookup(e: Seq<(Seq<char>, Seq<char>)>, k: Seq<char>) -> Option<Seq<char>>
    decreases e.len(),
{
    if e.len() == 0 {
        None
    } else if e[0].0 == k {
        Some(e[0].1)
    } else {
        env_lookup(e.drop_first(), k)
    }
}

/// Binds `k` to `v` in a map sorted by key: replaces an existing binding, or
/// inserts the new one before the first larger key.
pub open spec fn env_insert(e: Seq<(Seq<char>, Seq<char>)>, k: Seq<char>, v: Seq<char>) -> Seq<
    (Seq<char>, Seq<char>),
>
    decreases e.len(),
{
    if e.len() == 0 {
        seq![(k, v)]
    } else if e[0].0 == k {
        seq![(k, v)] + e.drop_first()
    } else if str_lt(k, e[0].0) {
        seq![(k, v)] + e
    } else {
        seq![e[0]] + env_insert(e.drop_first(), k, v)
    }
}

/// Inserting into a sorted map keeps it sorted, and the new key is bound to
/// the new value while every other key keeps its binding.
pub proof fn lemma_env_insert(e: Seq<(Seq<char>, Seq<char>)>, k: Seq<char>, v: Seq<char>)
    requires
        sorted_keys(e),
    ensures
        sorted_keys(env_insert(e, k, v)),
        env_lookup(env_insert(e, k, v), k) == Some(v),
        forall|k2: Seq<char>|
            k2 != k ==> env_lookup(env_insert(e, k, v), k2) == env_lookup(e, k2),
        forall|i: int|
            0 <= i < env_insert(e, k, v).len() ==> (#[trigger] env_insert(e, k, v)[i]).0 == k
                || exists|j: int| 0 <= j < e.len() && e[j].0 == env_insert(e, k, v)[i].0,
    decreases e.len(),
{
    let r = env_insert(e, k, v);
    if e.len() == 0 {
        assert(r.drop_first() =~= Seq::<(Seq<char>, Seq<char>)>::empty());
        assert forall|k2: Seq<char>| k2 != k implies env_lookup(r, k2) == env_lookup(e, k2) by {
            assert(env_lookup(r.drop_first(), k2) is None);
        }
    } else if e[0].0 == k {
        assert(r.drop_first() =~= e.drop_first());
        assert forall|k2: Seq<char>| k2 != k implies env_lookup(r, k2) == env_lookup(e, k2) by {
            assert(env_lookup(r, k2) == env_lookup(r.drop_first(), k2));
        }
        assert forall|i: int, j: int| 0 <= i < j < r.len() implies str_lt(
            #[trigger] r[i].0,
            #[trigger] r[j].0,
        ) by {
            assert(e[i].0 == r[i].0);
            assert(e[j].0 == r[j].0);
        }
        assert forall|i: int| 0 <= i < r.len() implies (#[trigger] r[i]).0 == k || exists|
            j: int,
        | 0 <= j < e.len() && e[j].0 == r[i].0 by {
            assert(e[i].0 == r[i].0);
        }
    } else if str_lt(k, e[0].0) {
        assert(r.drop_first() =~= e);
        assert forall|k2: Seq<char>| k2 != k implies env_lookup(r, k2) == env_lookup(e, k2) by {
            assert(env_lookup(r, k2) == env_lookup(r.drop_first(), k2));
        }
        assert forall|i: int, j: int| 0 <= i < j < r.len() implies str_lt(
            #[trigger] r[i].0,
            #[trigger] r[j].0,
        ) by {
            if i == 0 {
                if j > 1 {
                    assert(str_lt(e[0].0, e[j - 1].0));
                    lemma_str_lt_trans(k, e[0].0, e[j - 1].0);
                }
            } else {
                assert(r[i] == e[i - 1]);
                assert(r[j] == e[j - 1]);
            }
        }
        assert forall|i: int| 0 <= i < r.len() implies (#[trigger] r[i]).0 == k || exists|
            j: int,
        | 0 <= j < e.len() && e[j].0 == r[i].0 by {
            if i > 0 {
                assert(r[i] == e[i - 1]);
            }
        }
    } else {
        let t = e.drop_first();
        assert(sorted_keys(t)) by {
            assert forall|i: int, j: int| 0 <= i < j < t.len() implies str_lt(
                #[trigger] t[i].0,
                #[trigger] t[j].0,
            ) by {
                assert(t[i] == e[i + 1]);
                assert(t[j] == e[j + 1]);
            }
        }
        lemma_env_insert(t, k, v);
        let rt = env_insert(t, k, v);
        assert(r.drop_first() =~= rt);
        lemma_str_lt_total(k, e[0].0);
        assert forall|i: int, j: int| 0 <= i < j < r.len() implies str_lt(
            #[trigger] r[i].0,
            #[trigger] r[j].0,
        ) by {
            if i == 0 {
                assert(r[j] == rt[j - 1]);
                if rt[j - 1].0 != k {
                    let jj = choose|jj: int| 0 <= jj < t.len() && t[jj].0 == rt[j - 1].0;
                    assert(t[jj] == e[jj + 1]);
                }
            } else {
                assert(r[i] == rt[i - 1]);
                assert(r[j] == rt[j - 1]);
            }
        }
        assert forall|k2: Seq<char>| k2 != k implies env_lookup(r, k2) == env_lookup(e, k2) by {
            assert(r[0] == e[0]);
            if e[0].0 != k2 {
                assert(env_lookup(rt, k2) == env_lookup(t, k2));
            }
        }
        assert(r[0] == e[0]);
        assert forall|i: int| 0 <= i < r.len() implies (#[trigger] r[i]).0 == k || exists|
            j: int,
        | 0 <= j < e.len() && e[j].0 == r[i].0 by {
            if i > 0 {
                assert(r[i] == rt[i - 1]);
                if rt[i - 1].0 != k {
                    let jj = choose|jj: int| 0 <= jj < t.len() && t[jj].0 == rt[i - 1].0;
                    assert(t[jj] == e[jj + 1]);
                }
            }
        }
    }
}

/// Inserting a key larger than every present key appends it.
pub proof fn lemma_env_insert_last(e: Seq<(Seq<char>, Seq<char>)>, k: Seq<char>, v: Seq<char>)
    requires
        forall|i: int| 0 <= i < e.len() ==> str_lt(#[trigger] e[i].0, k),
    ensures
        env_insert(e, k, v) == e.push((k, v)),
    decreases e.len(),
{
    if e.len() > 0 {
        lemma_str_lt_irrefl(k);
        lemma_str_lt_asym(e[0].0, k);
        let t = e.drop_first();
        assert forall|i: int| 0 <= i < t.len() implies str_lt(#[trigger] t[i].0, k) by {
            assert(t[i] == e[i + 1]);
        }
        lemma_env_insert_last(t, k, v);
        assert(e.push((k, v)) =~= seq![e[0]] + t.push((k, v)));
    } else {
        assert(e.push((k, v)) =~= seq![(k, v)]);
    }
}

/// `env_insert` in terms of the insertion point `i`: every key before `i` is
/// smaller than `k`, and the key at `i` (if any) is not.
proof fn lemma_env_insert_at(e: Seq<(Seq<char>, Seq<char>)>, k: Seq<char>, v: Seq<char>, i: int)
    requires
        0 <= i <= e.len(),
        forall|j: int| 0 <= j < i ==> str_lt(#[trigger] e[j].0, k),
        i < e.len() ==> !str_lt(e[i].0, k),
    ensures
        env_insert(e, k, v) == (if i < e.len() && e[i].0 == k {
            e.take(i) + seq![(k, v)] + e.skip(i + 1)
        } else {
            e.take(i) + seq![(k, v)] + e.skip(i)
        }),
    decreases i,
{
    if i == 0 {
        if e.len() > 0 {
            lemma_str_lt_total(k, e[0].0);
            assert(e.take(0) + seq![(k, v)] + e.skip(1) =~= seq![(k, v)] + e.drop_first());
            assert(e.take(0) + seq![(k, v)] + e.skip(0) =~= seq![(k, v)] + e);
        } else {
            assert(e.take(0) + seq![(k, v)] + e.skip(0) =~= seq![(k, v)]);
        }
    } else {
        lemma_str_lt_irrefl(k);
        lemma_str_lt_asym(e[0].0, k);
        let t = e.drop_first();
        assert forall|j: int| 0 <= j < i - 1 implies str_lt(#[trigger] t[j].0, k) by {
            assert(t[j] == e[j + 1]);
        }
        lemma_env_insert_at(t, k, v, i - 1);
        if i < e.len() && e[i].0 == k {
            assert(seq![e[0]] + (t.take(i - 1) + seq![(k, v)] + t.skip(i)) =~= e.take(i) + seq![
                (k, v),
            ] + e.skip(i + 1));
        } else {
            assert(seq![e[0]] + (t.take(i - 1) + seq![(k, v)] + t.skip(i - 1)) =~= e.take(i)
                + seq![(k, v)] + e.skip(i));
        }
    }
}

/// Environment variables, kept sorted by name.
#[derive(Debug, Clone)]
pub struct EnvMap {
    entries: Vec<(String, String)>,
}

impl View for EnvMap {
    type V = Seq<(Seq<char>, Seq<char>)>;

    closed spec fn view(&self) -> Seq<(Seq<char>, Seq<char>)> {
        self.entries@.map_values(|p: (String, String)| (p.0@, p.1@))
    }
}

impl EnvMap {
    /// The map holds each name once, in ascending order.
    pub open spec fn wf(&self) -> bool {
        sorted_keys(self@)
    }

    /// The empty map.
    pub fn new() -> (m: EnvMap)
        ensures
            m.wf(),
            m@ == Seq::<(Seq<char>, Seq<char>)>::empty(),
    {
        let m = EnvMap { entries: Vec::new() };
        assert(m@ =~= Seq::<(Seq<char>, Seq<char>)>::empty());
        m
    }

    /// A copy of the map.
    pub fn duplicate(&self) -> (m: EnvMap)
        ensures
            m@ == self@,
    {
        let mut entries: Vec<(String, String)> = Vec::new();
        let mut i: usize = 0;
        while i < self.entries.len()
            invariant
                i <= self.entries@.len(),
                entries@ == self.entries@.take(i as int),
            decreases self.entries@.len() - i,
        {
            let (k, v) = &self.entries[i];
            entries.push((k.clone(), v.clone()));
            i += 1;
            assert(entries@ =~= self.entries@.take(i as int));
        }
        assert(self.entries@.take(self.entries@.len() as int) =~= self.entries@);
        EnvMap { entries }
    }

    /// Number of variables.
    pub fn len(&self) -> (n: usize)
        ensures
            n == self@.len(),
    {
        self.entries.len()
    }

    /// The `i`-th variable in name order.
    pub fn entry(&self, i: usize) -> (r: (&String, &String))
        requires
            i < self@.len(),
        ensures
            r.0@ == self@[i as int].0,
            r.1@ == self@[i as int].1,
    {
        let p = &self.entries[i];
        (&p.0, &p.1)
    }

    /// Binds `key` to `value`, replacing an earlier binding of `key`.
    pub fn insert(&mut self, key: String, value: String)
        requires
            old(self).wf(),
        ensures
            final(self).wf(),
            final(self)@ == env_insert(old(self)@, key@, value@),
    {
        let ghost e = self@;
        let kc = chars_of(key.as_str());
        let mut i: usize = 0;
        while i < self.entries.len() && key_less(&self.entries[i].0, &kc)
            invariant
                e == self@,
                sorted_keys(e),
                kc@ == key@,
                i <= e.len(),
                forall|j: int| 0 <= j < i ==> str_lt(#[trigger] e[j].0, key@),
            decreases e.len() - i,
        {
            i += 1;
        }
        let found = i < self.entries.len() && key_eq(&self.entries[i].0, &kc);
        proof {
            if i < e.len() {
                assert(!str_lt(e[i as int].0, key@));
            }
            lemma_env_insert_at(e, key@, value@, i as int);
            lemma_env_insert(e, key@, value@);
        }
        if found {
            self.entries.set(i, (key, value));
        } else {
            self.entries.insert(i, (key, value));
        }
        assert(self@ =~= env_insert(e, key@, value@));
    }

    /// The value bound to `key`.
    pub fn get(&self, key: &str) -> (r: Option<&String>)
        requires
            self.wf(),
        ensures
            match env_lookup(self@, key@) {
                Some(v) => r is Some && r->0@ == v,
                None => r is None,
            },
    {
        let kc = chars_of(key);
        let mut i: usize = 0;
        assert(self@.skip(0) =~= self@);
        while i < self.entries.len()
            invariant
                i <= self@.len(),
                kc@ == key@,
                env_lookup(self@, key@) == env_lookup(self@.skip(i as int), key@),
            decreases self@.len() - i,
        {
            assert(self@.skip(i as int)[0] == self@[i as int]);
            if key_eq(&self.entries[i].0, &kc) {
                return Some(&self.entries[i].1);
            }
            assert(self@.skip(i as int).drop_first() =~= self@.skip(i + 1));
            i += 1;
        }
        None
    }
}

} // verus!
