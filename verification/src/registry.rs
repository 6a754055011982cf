//! Container registry references: `registry/namespace/name:tag`, the auth
//! challenge parameters of a registry, and where pulled images are stored.
use vstd::prelude::*;
use crate::error::ContainerError;
use vstd::string::StringSliceAdditionalSpecFns;
use crate::json::{self, Json, JsonValue, int_literal, json_get, json_seq, lemma_json_seq, parse_json};
use crate::http::{contains_lit, contains_text};
use crate::gzip::{decompress, spec_decompress};
use crate::text::{decimal, push_decimal, chars_of, extend_chars, find_char, find_from, path_join, join_path, range_eq_lit, ranges_view, split_char, split_char_acc, split_ranges, string_of, string_of_range, concat_str,
};

verus! {

/// Position of the last `c` in `s`.
pub open spec fn last_index(s: Seq<char>, c: char) -> Option<int>
    decreases s.len(),
{
    if s.len() == 0 {
        None
    } else if s.last() == c {
        Some(s.len() - 1)
    } else {
        last_index(s.drop_last(), c)
    }
}

/// The parts of an image reference: registry, namespace, name and tag.
pub open spec fn image_ref_of(r: Seq<char>) -> Option<(Seq<char>, Seq<char>, Seq<char>, Seq<char>)> {
    let (ip, tag) = match last_index(r, ':') {
        Some(i) => if find_char(r.skip(i + 1), '/') is None {
            (r.take(i), r.skip(i + 1))
        } else {
            (r, "latest"@)
        },
        None => (r, "latest"@),
    };
    let parts = split_char(ip, '/');
    if parts.len() == 1 {
        Some(("registry-1.docker.io"@, "library"@, parts[0], tag))
    } else if parts.len() == 2 {
        if find_char(parts[0], '.') is Some || find_char(parts[0], ':') is Some {
            Some((parts[0], "library"@, parts[1], tag))
        } else {
            Some(("registry-1.docker.io"@, parts[0], parts[1], tag))
        }
    } else if parts.len() == 3 {
        Some((parts[0], parts[1], parts[2], tag))
    } else {
        None
    }
}

/// The display name of an image reference.
pub open spec fn display_of(r: ImageRef) -> Seq<char> {
    if r.namespace@ == "library"@ {
        r.name@ + seq![':'] + r.tag@
    } else {
        r.namespace@ + seq!['/'] + r.name@ + seq![':'] + r.tag@
    }
}

/// An image reference `registry/namespace/name:tag`.
#[derive(Debug, Clone)]
pub struct ImageRef {
    pub registry: String,
    pub namespace: String,
    pub name: String,
    pub tag: String,
}

/// A layer of an image manifest.
#[derive(Debug, Clone)]
pub struct LayerDescriptor {
    pub media_type: String,
    pub digest: String,
    pub size: u64,
}

/// An image manifest: the config digest and the layers.
#[derive(Debug)]
pub struct ImageManifest {
    pub config_digest: String,
    pub layers: Vec<LayerDescriptor>,
}

/// Position of the last `c` in `s[0..hi]`.
fn rfind(s: &[char], hi: usize, c: char) -> (r: Option<usize>)
    requires
        hi <= s.len(),
    ensures
        r matches Some(i) ==> last_index(s@.take(hi as int), c) == Some(i as int) && i < hi,
        r is None ==> last_index(s@.take(hi as int), c) is None,
{
    let mut j = hi;
    while j > 0
        invariant
            j <= hi <= s.len(),
            last_index(s@.take(hi as int), c) == last_index(s@.take(j as int), c),
        decreases j,
    {
        assert(s@.take(j as int).last() == s@[j - 1]);
        assert(s@.take(j as int).drop_last() =~= s@.take(j - 1));
        if s[j - 1] == c {
            return Some(j - 1);
        }
        j -= 1;
    }
    None
}

impl ImageRef {
    /// Parses `name`, `name:tag`, `namespace/name:tag` or
    /// `registry/namespace/name:tag` (a first part with `.` or `:` of a
    /// two-part reference is a registry); the tag defaults to `latest`, the
    /// registry to Docker Hub and the namespace to `library`.
    pub fn parse(reference: &str) -> (r: Result<ImageRef, ContainerError>)
        ensures
            match image_ref_of(reference@) {
                Some((reg, ns, n, t)) => r is Ok && r->Ok_0.registry@ == reg && r->Ok_0.namespace@
                    == ns && r->Ok_0.name@ == n && r->Ok_0.tag@ == t,
                None => r is Err && r->Err_0 is Config,
            },
    {
        let c = chars_of(reference);
        let n = c.len();
        assert(c@.take(n as int) =~= reference@);
        let (ip_end, tag) = match rfind(&c, n, ':') {
            Some(i) => {
                match find_from(&c, i + 1, n, '/') {
                    None => {
                        assert(c@.subrange(i + 1, n as int) =~= reference@.skip(i + 1));
                        (i, string_of_range(&c, i + 1, n))
                    },
                    Some(_) => {
                        assert(c@.subrange(i + 1, n as int) =~= reference@.skip(i + 1));
                        (n, "latest".to_string())
                    },
                }
            },
            None => (n, "latest".to_string()),
        };
        assert(c@.subrange(0, ip_end as int) =~= reference@.take(ip_end as int));
        let parts = split_ranges(&c, 0, ip_end, '/');
        let ghost p = ranges_view(c@, parts@);
        if parts.len() == 1 {
            let (a, b) = parts[0];
            Ok(ImageRef {
                registry: "registry-1.docker.io".to_string(),
                namespace: "library".to_string(),
                name: string_of_range(&c, a, b),
                tag,
            })
        } else if parts.len() == 2 {
            let (a0, b0) = parts[0];
            let (a1, b1) = parts[1];
            assert(0 <= parts@[0].0 <= parts@[0].1 <= ip_end);
            assert(0 <= parts@[1].0 <= parts@[1].1 <= ip_end);
            let dot = find_from(&c, a0, b0, '.');
            let colon = find_from(&c, a0, b0, ':');
            if dot.is_some() || colon.is_some() {
                Ok(ImageRef {
                    registry: string_of_range(&c, a0, b0),
                    namespace: "library".to_string(),
                    name: string_of_range(&c, a1, b1),
                    tag,
                })
            } else {
                Ok(ImageRef {
                    registry: "registry-1.docker.io".to_string(),
                    namespace: string_of_range(&c, a0, b0),
                    name: string_of_range(&c, a1, b1),
                    tag,
                })
            }
        } else if parts.len() == 3 {
            let (a0, b0) = parts[0];
            let (a1, b1) = parts[1];
            let (a2, b2) = parts[2];
            assert(0 <= parts@[0].0 <= parts@[0].1 <= ip_end);
            assert(0 <= parts@[1].0 <= parts@[1].1 <= ip_end);
            assert(0 <= parts@[2].0 <= parts@[2].1 <= ip_end);
            Ok(ImageRef {
                registry: string_of_range(&c, a0, b0),
                namespace: string_of_range(&c, a1, b1),
                name: string_of_range(&c, a2, b2),
                tag,
            })
        } else {
            Err(ContainerError::Config(concat_str("invalid image reference: ", reference)))
        }
    }

    /// The repository path, `namespace/name`.
    pub fn repository(&self) -> (s: String)
        ensures
            s@ == self.namespace@ + seq!['/'] + self.name@,
    {
        let mut out = chars_of(self.namespace.as_str());
        out.push('/');
        extend_chars(&mut out, self.name.as_str());
        string_of(&out)
    }

    /// The display name: `name:tag` in the `library` namespace, else
    /// `namespace/name:tag`.
    pub fn display(&self) -> (s: String)
        ensures
            s@ == display_of(*self),
    {
        let ns = chars_of(self.namespace.as_str());
        let mut out: Vec<char> = Vec::new();
        if !range_eq_lit(&ns, 0, ns.len(), "library") {
            extend_chars(&mut out, self.namespace.as_str());
            out.push('/');
        }
        assert(ns@.subrange(0, ns@.len() as int) =~= self.namespace@);
        extend_chars(&mut out, self.name.as_str());
        out.push(':');
        extend_chars(&mut out, self.tag.as_str());
        string_of(&out)
    }
}

/// The last `c` stands just before a text without `c`.
proof fn lemma_last_index_before(x: Seq<char>, c: char, y: Seq<char>)
    requires
        forall|j: int| 0 <= j < y.len() ==> y[j] != c,
    ensures
        last_index(x + seq![c] + y, c) == Some(x.len() as int),
    decreases y.len(),
{
    let s = x + seq![c] + y;
    if y.len() == 0 {
        assert(s.last() == c);
    } else {
        assert(s.last() == y.last());
        assert(s.drop_last() =~= x + seq![c] + y.drop_last());
        lemma_last_index_before(x, c, y.drop_last());
    }
}

/// Splitting a text without the separator gives it whole.
pub proof fn lemma_split_plain(x: Seq<char>, c: char, cur: Seq<char>)
    requires
        forall|j: int| 0 <= j < x.len() ==> x[j] != c,
    ensures
        split_char_acc(x, c, cur) == seq![cur + x],
    decreases x.len(),
{
    if x.len() == 0 {
        assert(cur + x =~= cur);
    } else {
        lemma_split_plain(x.drop_first(), c, cur.push(x[0]));
        assert(cur.push(x[0]) + x.drop_first() =~= cur + x);
    }
}

/// Splitting `a`, the separator, then `b`, where `a` has no separator.
proof fn lemma_split_two(a: Seq<char>, c: char, b: Seq<char>, cur: Seq<char>)
    requires
        forall|j: int| 0 <= j < a.len() ==> a[j] != c,
        forall|j: int| 0 <= j < b.len() ==> b[j] != c,
    ensures
        split_char_acc(a + seq![c] + b, c, cur) == seq![cur + a, b],
    decreases a.len(),
{
    let s = a + seq![c] + b;
    if a.len() == 0 {
        assert(s[0] == c);
        assert(s.drop_first() =~= b);
        lemma_split_plain(b, c, Seq::empty());
        assert(Seq::<char>::empty() + b =~= b);
        assert(cur + a =~= cur);
    } else {
        assert(s[0] == a[0]);
        assert(s.drop_first() =~= a.drop_first() + seq![c] + b);
        lemma_split_two(a.drop_first(), c, b, cur.push(a[0]));
        assert(cur.push(a[0]) + a.drop_first() =~= cur + a);
    }
}

/// Reading back the display name of a Docker Hub reference gives the
/// reference again, when its namespace names no other registry (no `.` or
/// `:`) and no part holds a `/`, nor the tag a `:`, as `ImageRef::parse`
/// makes them.
pub proof fn lemma_display_parse(r: ImageRef)
    requires
        r.registry@ == "registry-1.docker.io"@,
        forall|j: int| 0 <= j < r.namespace@.len() ==> r.namespace@[j] != '/' && r.namespace@[j] != '.' && r.namespace@[j] != ':',
        forall|j: int| 0 <= j < r.name@.len() ==> r.name@[j] != '/',
        forall|j: int| 0 <= j < r.tag@.len() ==> r.tag@[j] != '/' && r.tag@[j] != ':',
    ensures
        image_ref_of(display_of(r)) == Some((r.registry@, r.namespace@, r.name@, r.tag@)),
{
    let ns = r.namespace@;
    let n = r.name@;
    let t = r.tag@;
    let prefix = if ns == "library"@ { n } else { ns + seq!['/'] + n };
    let d = display_of(r);
    assert(d =~= prefix + seq![':'] + t);
    lemma_last_index_before(prefix, ':', t);
    assert(d.skip(prefix.len() + 1int) =~= t);
    assert(d.take(prefix.len() as int) =~= prefix);
    crate::text::lemma_find_char_none(t, '/');
    if ns == "library"@ {
        lemma_split_plain(n, '/', Seq::empty());
        assert(Seq::<char>::empty() + n =~= n);
    } else {
        lemma_split_two(ns, '/', n, Seq::empty());
        assert(Seq::<char>::empty() + ns =~= ns);
        crate::text::lemma_find_char_none(ns, '.');
        crate::text::lemma_find_char_none(ns, ':');
    }
}

/// A text without `c` after the last `c` leaves that last `c` where it was.
proof fn lemma_last_index_suffix(x: Seq<char>, y: Seq<char>, c: char)
    requires
        forall|j: int| 0 <= j < y.len() ==> y[j] != c,
    ensures
        last_index(x + y, c) == last_index(x, c),
    decreases y.len(),
{
    if y.len() == 0 {
        assert(x + y =~= x);
    } else {
        assert((x + y).last() == y.last());
        assert((x + y).drop_last() =~= x + y.drop_last());
        lemma_last_index_suffix(x, y.drop_last(), c);
    }
}

proof fn lemma_last_index_range(x: Seq<char>, c: char)
    ensures
        last_index(x, c) matches Some(i) ==> 0 <= i < x.len(),
    decreases x.len(),
{
    if x.len() > 0 && x.last() != c {
        lemma_last_index_range(x.drop_last(), c);
    }
}

/// A reference whose first part names a registry host (it holds a `.` or a
/// `:`, as `host:port` does) is pulled from that registry, in the `library`
/// namespace, with the tag given after the name or `latest` when none is.
pub proof fn lemma_registry_reference(registry: Seq<char>, name: Seq<char>, tag: Seq<char>)
    requires
        exists|j: int| 0 <= j < registry.len() && (registry[j] == '.' || registry[j] == ':'),
        forall|j: int| 0 <= j < registry.len() ==> registry[j] != '/',
        forall|j: int| 0 <= j < name.len() ==> name[j] != '/' && name[j] != ':',
        forall|j: int| 0 <= j < tag.len() ==> tag[j] != '/' && tag[j] != ':',
    ensures
        image_ref_of(registry + seq!['/'] + name) == Some((registry, "library"@, name, "latest"@)),
        image_ref_of(registry + seq!['/'] + name + seq![':'] + tag) == Some((registry, "library"@, name, tag)),
{
    let j = choose|j: int| 0 <= j < registry.len() && (registry[j] == '.' || registry[j] == ':');
    crate::text::lemma_find_char(registry, '.');
    crate::text::lemma_find_char(registry, ':');
    assert(find_char(registry, '.') is Some || find_char(registry, ':') is Some) by {
        if registry[j] == '.' {
            assert(find_char(registry, '.') is Some);
        } else {
            assert(find_char(registry, ':') is Some);
        }
    }
    lemma_split_two(registry, '/', name, Seq::empty());
    assert(Seq::<char>::empty() + registry =~= registry);
    // without a tag
    let r = registry + seq!['/'] + name;
    let y = seq!['/'] + name;
    assert(r =~= registry + y);
    assert forall|k: int| 0 <= k < y.len() implies y[k] != ':' by {
        if k > 0 {
            assert(y[k] == name[k - 1]);
        }
    }
    lemma_last_index_suffix(registry, y, ':');
    lemma_last_index_range(registry, ':');
    if let Some(i) = last_index(registry, ':') {
        let after = r.skip(i + 1);
        assert(after[registry.len() - i - 1] == r[registry.len() as int]);
        assert(after[registry.len() - i - 1] == '/');
        crate::text::lemma_find_char(after, '/');
    }
    // with a tag
    let rt = r + seq![':'] + tag;
    lemma_last_index_before(r, ':', tag);
    assert(rt.skip(r.len() + 1int) =~= tag);
    assert(rt.take(r.len() as int) =~= r);
    crate::text::lemma_find_char_none(tag, '/');
}

/// First position of `pat` in `s` at or after `i`.
pub open spec fn find_text_from(s: Seq<char>, pat: Seq<char>, i: int) -> Option<int>
    decreases s.len() + 1 - i,
{
    if i < 0 || i + pat.len() > s.len() {
        None
    } else if s.subrange(i, i + pat.len()) == pat {
        Some(i)
    } else {
        find_text_from(s, pat, i + 1)
    }
}

/// The value of `param="value"` in an authentication challenge header.
pub open spec fn auth_param(header: Seq<char>, param: Seq<char>) -> Option<Seq<char>> {
    let search = param + "=\""@;
    match find_text_from(header, search, 0) {
        None => None,
        Some(start) => {
            let vs = start + search.len();
            match find_char(header.skip(vs), '"') {
                Some(e) => Some(header.subrange(vs, vs + e)),
                None => None,
            }
        },
    }
}

/// Extracts `param="value"` from a `WWW-Authenticate` header.
pub fn extract_auth_param(header: &str, param: &str) -> (r: Option<String>)
    ensures
        match auth_param(header@, param@) {
            Some(v) => r is Some && r->0@ == v,
            None => r is None,
        },
{
    let h = chars_of(header);
    let mut search = chars_of(param);
    extend_chars(&mut search, "=\"");
    let n = h.len();
    let m = search.len();
    let mut i: usize = 0;
    let ghost pat = search@;
    proof {
        reveal_strlit("=\"");
    }
    if m > n {
        return None;
    }
    while i <= n - m
        invariant
            m >= 2,
            m <= n,
            h@ == header@,
            pat == search@,
            pat == param@ + "=\""@,
            n == h@.len(),
            m == pat.len(),
            find_text_from(h@, pat, 0) == find_text_from(h@, pat, i as int),
        decreases n + 1 - i,
    {
        let mut k: usize = 0;
        let mut same = true;
        assert(h@.subrange(i as int, i as int) =~= pat.take(0));
        while k < m
            invariant
                k <= m,
                i + m <= n,
                m == pat.len(),
                n == h@.len(),
                pat == search@,
                same == (h@.subrange(i as int, i + k) == pat.take(k as int)),
            decreases m - k,
        {
            if same && h[i + k] != search[k] {
                same = false;
                assert(h@.subrange(i as int, i + k + 1)[k as int] != pat.take(k + 1)[k as int]);
            }
            if same {
                assert(h@.subrange(i as int, i + k + 1) =~= pat.take(k + 1));
            } else {
                assert(h@.subrange(i as int, i + k) != pat.take(k as int) ==> h@.subrange(i as int, i + k + 1) != pat.take(k + 1)) by {
                    if h@.subrange(i as int, i + k + 1) == pat.take(k + 1) {
                        assert(h@.subrange(i as int, i + k) =~= pat.take(k as int));
                    }
                }
            }
            k += 1;
        }
        assert(pat.take(m as int) =~= pat);
        if same {
            let vs = i + m;
            assert(h@.skip(vs as int) =~= h@.subrange(vs as int, n as int));
            match find_from(&h, vs, n, '"') {
                Some(e) => {
                    assert(h@.skip(vs as int).len() == n - vs);
                    return Some(string_of_range(&h, vs, e));
                },
                None => {
                    return None;
                },
            }
        }
        i += 1;
    }
    None
}

/// Where an image is stored: `<base>/images/<name>_<tag>`, with `:` in the
/// tag replaced by `_`.
pub fn image_storage_dir(base: &str, image_ref: &ImageRef) -> (p: String)
    ensures
        p@ == path_join(
            path_join(base@, "images"@),
            image_ref.name@ + seq!['_'] + image_ref.tag@.map_values(|c: char| if c == ':' { '_' } else { c }),
        ),
{
    let images = join_path(base, "images");
    let mut dir = chars_of(image_ref.name.as_str());
    dir.push('_');
    let t = chars_of(image_ref.tag.as_str());
    let ghost start = dir@;
    let mut i: usize = 0;
    while i < t.len()
        invariant
            i <= t@.len(),
            t@ == image_ref.tag@,
            dir@ == start + t@.take(i as int).map_values(|c: char| if c == ':' { '_' } else { c }),
        decreases t@.len() - i,
    {
        let ch = t[i];
        dir.push(if ch == ':' { '_' } else { ch });
        i += 1;
        assert(dir@ =~= start + t@.take(i as int).map_values(|c: char| if c == ':' { '_' } else { c }));
    }
    assert(t@.take(t@.len() as int) =~= t@);
    let d = string_of(&dir);
    join_path(images.as_str(), d.as_str())
}


// ----- Manifests -----

/// The text of a string value, if the value is one.
pub open spec fn str_of(o: Option<Json>) -> Option<Seq<char>> {
    match o {
        Some(Json::Str(t)) => Some(t),
        _ => None,
    }
}

/// The text of a string value, or `dflt`.
pub open spec fn str_or(o: Option<Json>, dflt: Seq<char>) -> Seq<char> {
    match str_of(o) {
        Some(t) => t,
        None => dflt,
    }
}

/// A layer's size: an integer literal that fits an `i64`, taken as a `u64`
/// the way `as` does; anything else counts as 0.
pub open spec fn size_of(o: Option<Json>) -> u64 {
    match o {
        Some(Json::Number(t)) => match int_literal(t) {
            Some(v) => if i64::MIN <= v && v <= i64::MAX {
                (if v >= 0 { v } else { v + 0x1_0000_0000_0000_0000 }) as u64
            } else {
                0
            },
            None => 0,
        },
        _ => 0,
    }
}

/// A layer entry: media type (default `application/octet-stream`), digest
/// (required) and size.
pub open spec fn layer_of(l: Json) -> Option<(Seq<char>, Seq<char>, u64)> {
    match str_of(json_get(l, "digest"@)) {
        Some(d) => Some((str_or(json_get(l, "mediaType"@), "application/octet-stream"@), d, size_of(json_get(l, "size"@)))),
        None => None,
    }
}

/// The layers of a manifest, failing if any lacks a digest.
pub open spec fn layers_of(a: Seq<Json>) -> Option<Seq<(Seq<char>, Seq<char>, u64)>>
    decreases a.len(),
{
    if a.len() == 0 {
        Some(Seq::empty())
    } else {
        match (layers_of(a.drop_last()), layer_of(a.last())) {
            (Some(ls), Some(l)) => Some(ls.push(l)),
            _ => None,
        }
    }
}

/// An image manifest: the config digest (empty when absent) and the layers,
/// which must be an array.
pub open spec fn manifest_of(j: Json) -> Option<(Seq<char>, Seq<(Seq<char>, Seq<char>, u64)>)> {
    let cd = match json_get(j, "config"@) {
        Some(c) => str_or(json_get(c, "digest"@), Seq::empty()),
        None => Seq::empty(),
    };
    match json_get(j, "layers"@) {
        Some(Json::Array(a)) => match layers_of(a) {
            Some(ls) => Some((cd, ls)),
            None => None,
        },
        _ => None,
    }
}

/// The fields of each layer descriptor.
pub open spec fn layers_view(v: Seq<LayerDescriptor>) -> Seq<(Seq<char>, Seq<char>, u64)> {
    v.map_values(|l: LayerDescriptor| (l.media_type@, l.digest@, l.size))
}

/// The member `key` of `v` when it is a string.
fn str_member(v: &JsonValue, key: &str) -> (r: Option<String>)
    ensures
        match str_of(json_get(v.json(), key@)) {
            Some(t) => r is Some && r->0@ == t,
            None => r is None,
        },
{
    match v.get(key) {
        Some(x) => match x.as_str() {
            Some(t) => Some(t.to_owned()),
            None => None,
        },
        None => None,
    }
}

/// Reads an image manifest: `config.digest` and the `layers` array.
pub fn parse_manifest(manifest: &JsonValue) -> (r: Result<ImageManifest, ContainerError>)
    ensures
        match manifest_of(manifest.json()) {
            Some((cd, ls)) => r is Ok && r->Ok_0.config_digest@ == cd && layers_view(r->Ok_0.layers@) == ls,
            None => r is Err && r->Err_0 is Network,
        },
{
    let config_digest = match manifest.get("config") {
        Some(c) => match str_member(c, "digest") {
            Some(d) => d,
            None => String::new(),
        },
        None => String::new(),
    };
    let layers_arr = match manifest.get("layers") {
        Some(v) => match v.as_array() {
            Some(a) => a,
            None => {
                return Err(ContainerError::Network("no layers in manifest".to_string()));
            },
        },
        None => {
            return Err(ContainerError::Network("no layers in manifest".to_string()));
        },
    };
    let ghost ja = json_seq(layers_arr@);
    proof {
        lemma_json_seq(layers_arr@);
    }
    assert(json_get(manifest.json(), "layers"@) == Some(Json::Array(ja)));
    let mut layers: Vec<LayerDescriptor> = Vec::new();
    let mut i: usize = 0;
    assert(ja.take(0) =~= Seq::<Json>::empty());
    while i < layers_arr.len()
        invariant
            i <= layers_arr@.len(),
            ja == json_seq(layers_arr@),
            json_get(manifest.json(), "layers"@) == Some(Json::Array(ja)),
            ja.len() == layers_arr@.len(),
            forall|j: int| 0 <= j < layers_arr@.len() ==> #[trigger] ja[j] == layers_arr@[j].json(),
            layers_of(ja.take(i as int)) == Some(layers_view(layers@)),
        decreases layers_arr@.len() - i,
    {
        let layer = &layers_arr[i];
        let media_type = match str_member(layer, "mediaType") {
            Some(m) => m,
            None => "application/octet-stream".to_string(),
        };
        let digest = match str_member(layer, "digest") {
            Some(d) => d,
            None => {
                proof {
                    assert(ja.take(i + 1).drop_last() =~= ja.take(i as int));
                    lemma_layers_prefix_fail(ja, i + 1);
                }
                return Err(ContainerError::Network("layer missing digest".to_string()));
            },
        };
        let size: u64 = match layer.get("size") {
            Some(x) => match x.as_i64() {
                Some(n) => if n >= 0 {
                    n as u64
                } else {
                    u64::MAX - ((-(n + 1)) as u64)
                },
                None => 0,
            },
            None => 0,
        };
        let ghost lv = (media_type@, digest@, size);
        let ghost prev = layers@;
        layers.push(LayerDescriptor { media_type, digest, size });
        proof {
            assert(ja.take(i + 1).drop_last() =~= ja.take(i as int));
            assert(ja.take(i + 1).last() == ja[i as int]);
            assert(layers_view(layers@) =~= layers_view(prev).push(lv));
        }
        i += 1;
    }
    assert(ja.take(layers_arr@.len() as int) =~= ja);
    Ok(ImageManifest { config_digest, layers })
}

// ----- Manifest lists -----

/// Whether a manifest-list entry is for amd64 Linux.
pub open spec fn is_amd64_linux(e: Json) -> bool {
    match json_get(e, "platform"@) {
        Some(p) => str_or(json_get(p, "architecture"@), Seq::empty()) == "amd64"@ && str_or(
            json_get(p, "os"@),
            Seq::empty(),
        ) == "linux"@,
        None => false,
    }
}

/// Position of the first amd64 Linux entry.
pub open spec fn first_amd64_linux(es: Seq<Json>) -> Option<int>
    decreases es.len(),
{
    if es.len() == 0 {
        None
    } else {
        match first_amd64_linux(es.drop_last()) {
            Some(i) => Some(i),
            None => if is_amd64_linux(es.last()) {
                Some(es.len() - 1)
            } else {
                None
            },
        }
    }
}

/// The digest of the amd64 Linux manifest of a manifest list, or the
/// message of the error that stops the search.
pub open spec fn platform_digest(list: Json) -> Result<Seq<char>, Seq<char>> {
    match json_get(list, "manifests"@) {
        Some(Json::Array(es)) => match first_amd64_linux(es) {
            Some(i) => match str_of(json_get(es[i], "digest"@)) {
                Some(d) => Ok(d),
                None => Err("no digest in manifest list entry"@),
            },
            None => Err("no amd64/linux manifest found in manifest list"@),
        },
        _ => Err("no manifests in manifest list"@),
    }
}

/// Finds the digest of the amd64 Linux image in a manifest list.
pub fn select_platform_digest(list: &JsonValue) -> (r: Result<String, ContainerError>)
    ensures
        match platform_digest(list.json()) {
            Ok(d) => r is Ok && r->Ok_0@ == d,
            Err(msg) => r matches Err(ContainerError::Network(m)) && m@ == msg,
        },
{
    let manifests = match list.get("manifests") {
        Some(v) => match v.as_array() {
            Some(a) => a,
            None => {
                return Err(ContainerError::Network("no manifests in manifest list".to_string()));
            },
        },
        None => {
            return Err(ContainerError::Network("no manifests in manifest list".to_string()));
        },
    };
    let ghost es = json_seq(manifests@);
    proof {
        lemma_json_seq(manifests@);
    }
    assert(json_get(list.json(), "manifests"@) == Some(Json::Array(es)));
    let amd64 = "amd64".to_owned();
    let linux = "linux".to_owned();
    let mut i: usize = 0;
    assert(es.take(0) =~= Seq::<Json>::empty());
    while i < manifests.len()
        invariant
            i <= manifests@.len(),
            es == json_seq(manifests@),
            json_get(list.json(), "manifests"@) == Some(Json::Array(es)),
            es.len() == manifests@.len(),
            forall|j: int| 0 <= j < manifests@.len() ==> #[trigger] es[j] == manifests@[j].json(),
            first_amd64_linux(es.take(i as int)) is None,
            amd64@ == "amd64"@,
            linux@ == "linux"@,
        decreases manifests@.len() - i,
    {
        let m = &manifests[i];
        assert(es.take(i + 1).drop_last() =~= es.take(i as int));
        assert(es.take(i + 1).last() == es[i as int]);
        if let Some(platform) = m.get("platform") {
            let arch = match str_member(platform, "architecture") {
                Some(a) => a,
                None => String::new(),
            };
            let os = match str_member(platform, "os") {
                Some(o) => o,
                None => String::new(),
            };
            if arch == amd64 && os == linux {
                proof {
                    lemma_first_prefix(es, i as int);
                }
                return match str_member(m, "digest") {
                    Some(d) => Ok(d),
                    None => Err(ContainerError::Network("no digest in manifest list entry".to_string())),
                };
            }
        }
        i += 1;
    }
    assert(es.take(manifests@.len() as int) =~= es);
    Err(ContainerError::Network("no amd64/linux manifest found in manifest list".to_string()))
}

/// When no entry before `i` matches and entry `i` does, the first match is `i`.
proof fn lemma_first_prefix(es: Seq<Json>, i: int)
    requires
        0 <= i < es.len(),
        first_amd64_linux(es.take(i)) is None,
        is_amd64_linux(es[i]),
    ensures
        first_amd64_linux(es) == Some(i),
    decreases es.len() - i,
{
    assert(es.take(i + 1).drop_last() =~= es.take(i));
    assert(first_amd64_linux(es.take(i + 1)) == Some(i));
    lemma_first_extend(es, i + 1, i);
}

/// A first match in a prefix is the first match of the whole sequence.
proof fn lemma_first_extend(es: Seq<Json>, k: int, i: int)
    requires
        0 <= k <= es.len(),
        first_amd64_linux(es.take(k)) == Some(i),
    ensures
        first_amd64_linux(es) == Some(i),
    decreases es.len() - k,
{
    if k < es.len() {
        assert(es.take(k + 1).drop_last() =~= es.take(k));
        lemma_first_extend(es, k + 1, i);
    } else {
        assert(es.take(k) =~= es);
    }
}

/// Whether a fetched manifest is a manifest list: its media type mentions
/// `manifest.list`, or it has a `manifests` member.
pub open spec fn is_manifest_list(j: Json) -> bool {
    contains_text(str_or(json_get(j, "mediaType"@), Seq::empty()), "manifest.list"@) || json_get(j, "manifests"@) is Some
}

/// Tells a manifest list from an image manifest.
pub fn manifest_is_list(manifest: &JsonValue) -> (r: bool)
    ensures
        r == is_manifest_list(manifest.json()),
{
    let media_type = match str_member(manifest, "mediaType") {
        Some(m) => m,
        None => String::new(),
    };
    contains_lit(media_type.as_str(), "manifest.list") || manifest.get("manifests").is_some()
}

// ----- Authentication -----

/// The token of a token-service reply: `token`, or `access_token` when
/// there is no `token` member; it must be a string.
pub open spec fn token_of(j: Json) -> Option<Seq<char>> {
    match json_get(j, "token"@) {
        Some(t) => str_of(Some(t)),
        None => str_of(json_get(j, "access_token"@)),
    }
}

/// Takes the bearer token out of a token-service reply.
pub fn auth_token_of(reply: &JsonValue) -> (r: Result<String, ContainerError>)
    ensures
        match token_of(reply.json()) {
            Some(t) => r is Ok && r->Ok_0@ == t,
            None => r matches Err(ContainerError::Network(m)) && m@ == "no token in auth response"@,
        },
{
    let v = match reply.get("token") {
        Some(t) => Some(t),
        None => reply.get("access_token"),
    };
    match v {
        Some(t) => match t.as_str() {
            Some(s) => Ok(s.to_owned()),
            None => Err(ContainerError::Network("no token in auth response".to_string())),
        },
        None => Err(ContainerError::Network("no token in auth response".to_string())),
    }
}

/// The Docker Hub token URL for pulling `repo`.
pub open spec fn hub_auth_url(repo: Seq<char>) -> Seq<char> {
    "https://auth.docker.io/token?service=registry.docker.io&scope=repository:"@ + repo + ":pull"@
}

/// The token URL named by a `WWW-Authenticate` challenge: its realm, with
/// the service (empty when absent) and the pull scope of `repo`.
pub open spec fn challenge_url(www_auth: Seq<char>, repo: Seq<char>) -> Option<Seq<char>> {
    match auth_param(www_auth, "realm"@) {
        Some(realm) => Some(realm + "?service="@ + (match auth_param(www_auth, "service"@) {
            Some(sv) => sv,
            None => Seq::empty(),
        }) + "&scope=repository:"@ + repo + ":pull"@),
        None => None,
    }
}

/// The next step of authenticating against a registry.
pub enum AuthStep {
    /// Done: use this token (empty when the registry needs none).
    Token(String),
    /// Fetch a token from this URL.
    FetchToken(String),
    /// Ask this URL (`/v2/`) whether the registry wants authentication.
    Probe(String),
}

/// How authentication starts: Docker Hub has a fixed token service; other
/// registries are probed first.
pub fn auth_start(image_ref: &ImageRef) -> (r: AuthStep)
    ensures
        image_ref.registry@ == "registry-1.docker.io"@ ==> (r matches AuthStep::FetchToken(u) && u@
            == hub_auth_url(image_ref.namespace@ + seq!['/'] + image_ref.name@)),
        image_ref.registry@ != "registry-1.docker.io"@ ==> (r matches AuthStep::Probe(u) && u@ == "https://"@
            + image_ref.registry@ + "/v2/"@),
{
    if image_ref.registry == "registry-1.docker.io".to_owned() {
        let repo = image_ref.repository();
        let mut v: Vec<char> = Vec::new();
        extend_chars(&mut v, "https://auth.docker.io/token?service=registry.docker.io&scope=repository:");
        extend_chars(&mut v, repo.as_str());
        extend_chars(&mut v, ":pull");
        AuthStep::FetchToken(string_of(&v))
    } else {
        let mut v: Vec<char> = Vec::new();
        extend_chars(&mut v, "https://");
        extend_chars(&mut v, image_ref.registry.as_str());
        extend_chars(&mut v, "/v2/");
        AuthStep::Probe(string_of(&v))
    }
}

/// What a probe's answer means: anything but 401 needs no token; a 401
/// must carry a challenge with a realm.
pub fn auth_after_probe(status: u16, www_authenticate: Option<&str>, repo: &str) -> (r: Result<AuthStep, ContainerError>)
    ensures
        status != 401 ==> (r matches Ok(AuthStep::Token(t)) && t@.len() == 0),
        status == 401 ==> match www_authenticate {
            None => r matches Err(ContainerError::Network(m)) && m@
                == "registry requires auth but no WWW-Authenticate"@,
            Some(h) => match challenge_url(h@, repo@) {
                Some(u) => r matches Ok(AuthStep::FetchToken(x)) && x@ == u,
                None => r matches Err(ContainerError::Network(m)) && m@ == "cannot parse auth challenge"@,
            },
        },
{
    if status != 401 {
        return Ok(AuthStep::Token(String::new()));
    }
    match www_authenticate {
        None => Err(ContainerError::Network("registry requires auth but no WWW-Authenticate".to_string())),
        Some(h) => match extract_auth_param(h, "realm") {
            Some(realm) => {
                let service = match extract_auth_param(h, "service") {
                    Some(sv) => sv,
                    None => String::new(),
                };
                let mut v: Vec<char> = Vec::new();
                extend_chars(&mut v, realm.as_str());
                extend_chars(&mut v, "?service=");
                extend_chars(&mut v, service.as_str());
                extend_chars(&mut v, "&scope=repository:");
                extend_chars(&mut v, repo);
                extend_chars(&mut v, ":pull");
                assert(v@ =~= challenge_url(h@, repo@)->0);
                Ok(AuthStep::FetchToken(string_of(&v)))
            },
            None => Err(ContainerError::Network("cannot parse auth challenge".to_string())),
        },
    }
}

/// `text` followed by the decimal form of `n`.
fn text_num(text: &str, n: u16) -> (s: String)
    ensures
        s@ == text@ + decimal(n as nat),
{
    let mut v: Vec<char> = Vec::new();
    extend_chars(&mut v, text);
    push_decimal(&mut v, n as u64);
    string_of(&v)
}

/// `prefix` followed by `rest`.
fn text_cat(prefix: &str, rest: &str) -> (s: String)
    ensures
        s@ == prefix@ + rest@,
{
    let mut v: Vec<char> = Vec::new();
    extend_chars(&mut v, prefix);
    extend_chars(&mut v, rest);
    string_of(&v)
}

/// The token from a token-service answer: it must be 200 and a JSON object
/// with a string `token` (or `access_token`).
pub fn auth_token_from_response(status: u16, body: &str) -> (r: Result<String, ContainerError>)
    ensures
        status != 200 ==> (r matches Err(ContainerError::Network(m)) && m@ == "auth token request failed: HTTP "@
            + decimal(status as nat)),
        status == 200 ==> match parse_json(body.spec_bytes()) {
            None => r matches Err(ContainerError::Network(_)),
            Some(j) => match token_of(j) {
                Some(t) => r is Ok && r->Ok_0@ == t,
                None => r matches Err(ContainerError::Network(m)) && m@ == "no token in auth response"@,
            },
        },
{
    if status != 200 {
        return Err(ContainerError::Network(text_num("auth token request failed: HTTP ", status)));
    }
    match json::parse(body) {
        Ok(j) => auth_token_of(&j),
        Err(e) => Err(ContainerError::Network(text_cat("parse auth response: ", e.as_str()))),
    }
}

// ----- Fetching manifests -----

/// `https://<registry>/v2/<namespace>/<name>/<kind>/<reference>`.
pub open spec fn registry_url(r: ImageRef, kind: Seq<char>, reference: Seq<char>) -> Seq<char> {
    "https://"@ + r.registry@ + "/v2/"@ + r.namespace@ + seq!['/'] + r.name@ + seq!['/'] + kind + seq!['/']
        + reference
}

fn build_registry_url(image_ref: &ImageRef, kind: &str, reference: &str) -> (s: String)
    ensures
        s@ == registry_url(*image_ref, kind@, reference@),
{
    let mut v: Vec<char> = Vec::new();
    extend_chars(&mut v, "https://");
    extend_chars(&mut v, image_ref.registry.as_str());
    extend_chars(&mut v, "/v2/");
    let repo = image_ref.repository();
    extend_chars(&mut v, repo.as_str());
    v.push('/');
    extend_chars(&mut v, kind);
    v.push('/');
    extend_chars(&mut v, reference);
    assert(v@ =~= registry_url(*image_ref, kind@, reference@));
    string_of(&v)
}

/// The URL of the manifest `reference` (a tag or a digest).
pub fn manifest_url(image_ref: &ImageRef, reference: &str) -> (s: String)
    ensures
        s@ == registry_url(*image_ref, "manifests"@, reference@),
{
    build_registry_url(image_ref, "manifests", reference)
}

/// The URL of the blob `digest`.
pub fn blob_url(image_ref: &ImageRef, digest: &str) -> (s: String)
    ensures
        s@ == registry_url(*image_ref, "blobs"@, digest@),
{
    build_registry_url(image_ref, "blobs", digest)
}

/// The media types a manifest request accepts.
pub open spec fn manifest_accept() -> Seq<char> {
    "application/vnd.docker.distribution.manifest.v2+json, application/vnd.oci.image.manifest.v1+json"@
}

/// The headers of a manifest request: `Accept`, and `Authorization:
/// Bearer <token>` when there is a token.
pub fn registry_headers(token: &str) -> (h: Vec<(String, String)>)
    ensures
        h@.len() == (if token@.len() == 0 { 1int } else { 2int }),
        h@[0].0@ == "Accept"@ && h@[0].1@ == manifest_accept(),
        token@.len() > 0 ==> h@[1].0@ == "Authorization"@ && h@[1].1@ == "Bearer "@ + token@,
{
    let mut h: Vec<(String, String)> = Vec::new();
    h.push(("Accept".to_owned(), "application/vnd.docker.distribution.manifest.v2+json, application/vnd.oci.image.manifest.v1+json".to_owned()));
    if !token.is_empty() {
        h.push(("Authorization".to_owned(), text_cat("Bearer ", token)));
    }
    h
}

/// The headers of a blob request: `Authorization` when there is a token.
pub fn blob_headers(token: &str) -> (h: Vec<(String, String)>)
    ensures
        token@.len() == 0 ==> h@.len() == 0,
        token@.len() > 0 ==> h@.len() == 1 && h@[0].0@ == "Authorization"@ && h@[0].1@ == "Bearer "@ + token@,
{
    let mut h: Vec<(String, String)> = Vec::new();
    if !token.is_empty() {
        h.push(("Authorization".to_owned(), text_cat("Bearer ", token)));
    }
    h
}

/// What a manifest answer leads to.
pub enum ManifestStep {
    /// The image manifest.
    Done(ImageManifest),
    /// A manifest list: fetch the amd64 Linux manifest from this URL.
    FetchByDigest(String),
}

/// Handles the answer to a manifest request for `image_ref`'s tag.
pub fn on_manifest_response(image_ref: &ImageRef, status: u16, body: &str) -> (r: Result<ManifestStep, ContainerError>)
    ensures
        status == 404 ==> (r matches Err(ContainerError::NotFound(m)) && m@ == "image "@ + display_of(*image_ref)),
        status != 404 && status != 200 ==> (r matches Err(ContainerError::Network(m)) && m@
            == "manifest fetch failed: HTTP "@ + decimal(status as nat) + " \u{2014} "@ + body@),
        status == 200 ==> match parse_json(body.spec_bytes()) {
            None => r matches Err(ContainerError::Network(_)),
            Some(j) => if is_manifest_list(j) {
                match platform_digest(j) {
                    Ok(d) => r matches Ok(ManifestStep::FetchByDigest(u)) && u@ == registry_url(
                        *image_ref,
                        "manifests"@,
                        d,
                    ),
                    Err(msg) => r matches Err(ContainerError::Network(m)) && m@ == msg,
                }
            } else {
                match manifest_of(j) {
                    Some((cd, ls)) => r matches Ok(ManifestStep::Done(mf)) && mf.config_digest@ == cd
                        && layers_view(mf.layers@) == ls,
                    None => r matches Err(ContainerError::Network(_)),
                }
            },
        },
{
    if status == 404 {
        let d = image_ref.display();
        return Err(ContainerError::NotFound(text_cat("image ", d.as_str())));
    }
    if status != 200 {
        let mut v: Vec<char> = Vec::new();
        extend_chars(&mut v, "manifest fetch failed: HTTP ");
        push_decimal(&mut v, status as u64);
        extend_chars(&mut v, " \u{2014} ");
        extend_chars(&mut v, body);
        return Err(ContainerError::Network(string_of(&v)));
    }
    let manifest = match json::parse(body) {
        Ok(j) => j,
        Err(e) => {
            return Err(ContainerError::Network(text_cat("parse manifest: ", e.as_str())));
        },
    };
    if manifest_is_list(&manifest) {
        match select_platform_digest(&manifest) {
            Ok(d) => Ok(ManifestStep::FetchByDigest(manifest_url(image_ref, d.as_str()))),
            Err(e) => Err(e),
        }
    } else {
        match parse_manifest(&manifest) {
            Ok(m) => Ok(ManifestStep::Done(m)),
            Err(e) => Err(e),
        }
    }
}

/// Handles the answer to a request for a manifest by digest.
pub fn on_digest_manifest_response(status: u16, body: &str) -> (r: Result<ImageManifest, ContainerError>)
    ensures
        status != 200 ==> (r matches Err(ContainerError::Network(m)) && m@
            == "manifest fetch by digest failed: HTTP "@ + decimal(status as nat)),
        status == 200 ==> match parse_json(body.spec_bytes()) {
            None => r matches Err(ContainerError::Network(_)),
            Some(j) => match manifest_of(j) {
                Some((cd, ls)) => r is Ok && r->Ok_0.config_digest@ == cd && layers_view(r->Ok_0.layers@) == ls,
                None => r matches Err(ContainerError::Network(_)),
            },
        },
{
    if status != 200 {
        return Err(ContainerError::Network(text_num("manifest fetch by digest failed: HTTP ", status)));
    }
    match json::parse(body) {
        Ok(j) => parse_manifest(&j),
        Err(e) => Err(ContainerError::Network(text_cat("parse manifest: ", e.as_str()))),
    }
}

/// The status a layer download must have.
pub fn check_layer_download(status: u16) -> (r: Result<(), ContainerError>)
    ensures
        status == 200 ==> r is Ok,
        status != 200 ==> (r matches Err(ContainerError::Network(m)) && m@ == "layer download failed: HTTP "@
            + decimal(status as nat)),
{
    if status != 200 {
        return Err(ContainerError::Network(text_num("layer download failed: HTTP ", status)));
    }
    Ok(())
}

/// A layer blob as tar bytes: gunzipped when it starts with the gzip magic.
pub fn layer_tar_bytes(data: &[u8]) -> (r: Result<Vec<u8>, ContainerError>)
    ensures
        data@.len() >= 2 && data@[0] == 0x1f && data@[1] == 0x8b ==> match spec_decompress(data@) {
            Some(o) => r is Ok && r->Ok_0@ == o,
            None => r is Err && r->Err_0 is Io,
        },
        !(data@.len() >= 2 && data@[0] == 0x1f && data@[1] == 0x8b) ==> r is Ok && r->Ok_0@ == data@,
{
    if data.len() >= 2 && data[0] == 0x1f && data[1] == 0x8b {
        decompress(data)
    } else {
        Ok(vstd::slice::slice_to_vec(data))
    }
}

/// The file name a layer is stored under: its digest with `:` made `_`.
pub fn layer_file_name(digest: &str) -> (s: String)
    ensures
        s@ == digest@.map_values(|c: char| if c == ':' { '_' } else { c }),
{
    let t = chars_of(digest);
    let mut v: Vec<char> = Vec::new();
    let mut i: usize = 0;
    while i < t.len()
        invariant
            i <= t@.len(),
            t@ == digest@,
            v@ == t@.take(i as int).map_values(|c: char| if c == ':' { '_' } else { c }),
        decreases t@.len() - i,
    {
        let ch = t[i];
        v.push(if ch == ':' { '_' } else { ch });
        i += 1;
        assert(v@ =~= t@.take(i as int).map_values(|c: char| if c == ':' { '_' } else { c }));
    }
    assert(t@.take(t@.len() as int) =~= t@);
    string_of(&v)
}

/// The `image.conf` written next to a pulled image.
pub fn image_info(image_ref: &ImageRef, n_layers: usize) -> (s: String)
    ensures
        s@ == "image="@ + display_of(*image_ref) + "\nregistry="@ + image_ref.registry@ + "\nrepository="@
            + image_ref.namespace@ + seq!['/'] + image_ref.name@ + "\ntag="@ + image_ref.tag@ + "\nlayers="@
            + decimal(n_layers as nat) + "\n"@,
{
    let mut v: Vec<char> = Vec::new();
    extend_chars(&mut v, "image=");
    let d = image_ref.display();
    extend_chars(&mut v, d.as_str());
    extend_chars(&mut v, "\nregistry=");
    extend_chars(&mut v, image_ref.registry.as_str());
    extend_chars(&mut v, "\nrepository=");
    let repo = image_ref.repository();
    extend_chars(&mut v, repo.as_str());
    extend_chars(&mut v, "\ntag=");
    extend_chars(&mut v, image_ref.tag.as_str());
    extend_chars(&mut v, "\nlayers=");
    push_decimal(&mut v, n_layers as u64);
    extend_chars(&mut v, "\n");
    assert(v@ =~= "image="@ + display_of(*image_ref) + "\nregistry="@ + image_ref.registry@ + "\nrepository="@
        + image_ref.namespace@ + seq!['/'] + image_ref.name@ + "\ntag="@ + image_ref.tag@ + "\nlayers="@
        + decimal(n_layers as nat) + "\n"@);
    string_of(&v)
}

/// A prefix without a valid layer list spoils the whole list.
proof fn lemma_layers_prefix_fail(a: Seq<Json>, k: int)
    requires
        0 <= k <= a.len(),
        layers_of(a.take(k)) is None,
    ensures
        layers_of(a) is None,
    decreases a.len() - k,
{
    if k < a.len() {
        assert(a.take(k + 1).drop_last() =~= a.take(k));
        lemma_layers_prefix_fail(a, k + 1);
    } else {
        assert(a.take(k) =~= a);
    }
}

} // verus!
