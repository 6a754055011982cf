//! HTTP/1.1: URLs, response parsing (status line, headers, chunked bodies)
//! and the decisions taken while following redirects. Sending requests is
//! left to the caller.
use vstd::prelude::*;
use crate::envmap::{EnvMap, env_insert, env_lookup};
use crate::compose::pair_views;
use crate::config::string_views;
use crate::error::ContainerError;
use crate::text::{
    chars_of, decimal, extend_chars, find_char, find_from, lemma_find_char, lemma_find_char_none, lines, next_line, parse_hex,
    parse_hex_exec, parse_uint_exec, parse_uint_max, push_decimal, range_eq_lit,
    range_starts_with_lit, ranges_view, split_ws, split_ws_ranges, string_of, string_of_range,
    trim, trim_bounds, concat_str,
};

verus! {

/// What `String::from_utf8_lossy` makes of a byte string.
pub uninterp spec fn lossy_text(b: Seq<u8>) -> Seq<char>;

/// What `std::str::from_utf8` makes of a byte string: its characters, or
/// `None` where it is not UTF-8.
pub open spec fn utf8_text(b: Seq<u8>) -> Option<Seq<char>> {
    if vstd::utf8::valid_utf8(b) {
        Some(vstd::utf8::decode_utf8(b))
    } else {
        None
    }
}

/// What `str::to_lowercase` makes of a string.
pub uninterp spec fn lowercase(s: Seq<char>) -> Seq<char>;

/// `String::from_utf8_lossy`: decodes UTF-8, replacing each invalid sequence
/// with U+FFFD. The contract names the result; it also states the documented
/// fact that valid UTF-8 comes back unchanged.
#[verifier::external_body]
pub(crate) fn text_of_bytes(b: &[u8]) -> (r: String)
    ensures
        r@ == lossy_text(b@),
        utf8_text(b@) matches Some(t) ==> r@ == t,
{
    String::from_utf8_lossy(b).into_owned()
}

/// `std::str::from_utf8`: the characters of a byte string that is valid
/// UTF-8 (its UTF-8 decoding), or `None` where it is not.
#[verifier::external_body]
fn decode_utf8(b: &[u8]) -> (r: Option<String>)
    ensures
        r matches Some(s) ==> utf8_text(b@) == Some(s@),
        r is None ==> utf8_text(b@) is None,
{
    match std::str::from_utf8(b) {
        Ok(s) => Some(s.to_string()),
        Err(_) => None,
    }
}

/// `str::to_lowercase` (full Unicode lowercase mapping). The contract names
/// the result and says no more of it.
#[verifier::external_body]
pub(crate) fn to_lower(s: &str) -> (r: String)
    ensures
        r@ == lowercase(s@),
{
    s.to_lowercase()
}

/// An HTTP response.
#[derive(Debug)]
pub struct HttpResponse {
    pub status: u16,
    /// Header names are lowercase.
    pub headers: EnvMap,
    pub body: Vec<u8>,
}

impl HttpResponse {
    /// The body as text, invalid UTF-8 replaced.
    pub fn body_string(&self) -> (s: String)
        ensures
            s@ == lossy_text(self.body@),
    {
        text_of_bytes(self.body.as_slice())
    }

    /// The value of header `key`, looked up by its lowercase form.
    pub fn header(&self, key: &str) -> (r: Option<&String>)
        requires
            self.headers.wf(),
        ensures
            match env_lookup(self.headers@, lowercase(key@)) {
                Some(v) => r is Some && r->0@ == v,
                None => r is None,
            },
    {
        let k = to_lower(key);
        self.headers.get(k.as_str())
    }
}

/// The `Host` header of a URL.
pub open spec fn host_header_of(u: Url) -> Seq<char> {
    if (u.scheme@ == "https"@ && u.port == 443) || (u.scheme@ == "http"@ && u.port == 80) {
        u.host@
    } else {
        u.host@ + seq![':'] + decimal(u.port as nat)
    }
}

/// A parsed `http://` or `https://` URL.
#[derive(Debug, Clone)]
pub struct Url {
    pub scheme: String,
    pub host: String,
    pub port: u16,
    pub path: String,
}

/// The parts of a URL: scheme, host, port, path.
pub open spec fn parse_url(u: Seq<char>) -> Option<(Seq<char>, Seq<char>, u16, Seq<char>)> {
    let https = 8 <= u.len() && u.take(8) == "https://"@;
    let http = 7 <= u.len() && u.take(7) == "http://"@;
    if !https && !http {
        None
    } else {
        let scheme = if https {
            "https"@
        } else {
            "http"@
        };
        let rest = if https {
            u.skip(8)
        } else {
            u.skip(7)
        };
        let (host_port, path) = match find_char(rest, '/') {
            Some(i) => (rest.take(i), rest.skip(i)),
            None => (rest, "/"@),
        };
        match find_char(host_port, ':') {
            Some(i) => match parse_uint_max(host_port.skip(i + 1), 65535) {
                Some(p) => Some((scheme, host_port.take(i), p as u16, path)),
                None => None,
            },
            None => Some((scheme, host_port, if https { 443u16 } else { 80u16 }, path)),
        }
    }
}

impl Url {
    /// Parses a URL; fails on another scheme or an invalid port.
    pub fn parse(url: &str) -> (r: Result<Url, ContainerError>)
        ensures
            match parse_url(url@) {
                Some((s, h, p, pa)) => r is Ok && r->Ok_0.scheme@ == s && r->Ok_0.host@ == h
                    && r->Ok_0.port == p && r->Ok_0.path@ == pa,
                None => r is Err && r->Err_0 is Network,
            },
    {
        let u = chars_of(url);
        let n = u.len();
        let https = range_starts_with_lit(&u, 0, n, "https://");
        let http = range_starts_with_lit(&u, 0, n, "http://");
        proof {
            reveal_strlit("https://");
            reveal_strlit("http://");
            assert(u@.subrange(0, n as int) =~= url@);
            if 8 <= n {
                assert(u@.subrange(0, 8) =~= url@.take(8));
            }
            if 7 <= n {
                assert(u@.subrange(0, 7) =~= url@.take(7));
            }
        }
        if !https && !http {
            return Err(ContainerError::Network(concat_str("unsupported URL scheme: ", url)));
        }
        let start: usize = if https {
            8
        } else {
            7
        };
        let scheme = if https {
            "https".to_string()
        } else {
            "http".to_string()
        };
        let ghost rest = u@.skip(start as int);
        assert(rest =~= u@.subrange(start as int, n as int));
        let (hp_end, path) = match find_from(&u, start, n, '/') {
            Some(i) => {
                assert(rest.take(i - start) =~= u@.subrange(start as int, i as int));
                assert(rest.skip(i - start) =~= u@.subrange(i as int, n as int));
                (i, string_of_range(&u, i, n))
            },
            None => (n, "/".to_string()),
        };
        let ghost hp = u@.subrange(start as int, hp_end as int);
        match find_from(&u, start, hp_end, ':') {
            Some(i) => {
                assert(hp.skip(i - start + 1) =~= u@.subrange(i + 1, hp_end as int));
                assert(hp.take(i - start) =~= u@.subrange(start as int, i as int));
                match parse_uint_exec(&u, i + 1, hp_end, 65535) {
                    Some(p) => Ok(
                        Url { scheme, host: string_of_range(&u, start, i), port: p as u16, path },
                    ),
                    None => Err(ContainerError::Network("invalid port".to_string())),
                }
            },
            None => {
                let port: u16 = if https {
                    443
                } else {
                    80
                };
                Ok(Url { scheme, host: string_of_range(&u, start, hp_end), port, path })
            },
        }
    }

    /// The `Host` header for this URL: the host, with `:port` unless the
    /// port is the scheme's default.
    pub fn host_header(&self) -> (h: String)
        ensures
            h@ == host_header_of(*self),
    {
        let sc = chars_of(self.scheme.as_str());
        let n = sc.len();
        if (range_eq_lit(&sc, 0, n, "https") && self.port == 443) || (range_eq_lit(
            &sc,
            0,
            n,
            "http",
        ) && self.port == 80) {
            assert(sc@.subrange(0, n as int) =~= self.scheme@);
            self.host.clone()
        } else {
            assert(sc@.subrange(0, n as int) =~= self.scheme@);
            let mut out = chars_of(self.host.as_str());
            out.push(':');
            push_decimal(&mut out, self.port as u64);
            string_of(&out)
        }
    }
}

/// `c` stands first at the end of `x` in `x + y` when `x` lacks it and `y`
/// begins with it.
proof fn lemma_find_char_after(x: Seq<char>, y: Seq<char>, c: char)
    requires
        forall|j: int| 0 <= j < x.len() ==> x[j] != c,
        y.len() > 0,
        y[0] == c,
    ensures
        find_char(x + y, c) == Some(x.len() as int),
{
    let s = x + y;
    lemma_find_char(s, c);
    assert(s[x.len() as int] == c);
    if let Some(i) = find_char(s, c) {
        if i < x.len() {
            assert(s[i] == x[i]);
        }
    }
}

/// A URL that names no port goes to its scheme's default port, 80 for
/// `http://` and 443 for `https://`; its host is everything up to the path,
/// and its path is `/` when it has none.
pub proof fn lemma_url_default_port(host: Seq<char>, path: Seq<char>, https: bool)
    requires
        forall|j: int| 0 <= j < host.len() ==> host[j] != '/' && host[j] != ':',
        path.len() == 0 || path[0] == '/',
    ensures
        ({
            let scheme = if https { "https"@ } else { "http"@ };
            let port: u16 = if https { 443 } else { 80 };
            parse_url(scheme + "://"@ + host + path) == Some(
                (scheme, host, port, if path.len() == 0 { "/"@ } else { path }),
            )
        }),
{
    reveal_strlit("https");
    reveal_strlit("http");
    reveal_strlit("://");
    reveal_strlit("https://");
    reveal_strlit("http://");
    reveal_strlit("/");
    let scheme = if https { "https"@ } else { "http"@ };
    let u = scheme + "://"@ + host + path;
    let k: int = if https { 8 } else { 7 };
    if https {
        assert(u.take(8) =~= "https://"@);
    } else {
        assert(u.take(7) =~= "http://"@);
        if 8 <= u.len() {
            assert(u.take(8)[4] != "https://"@[4]);
        }
    }
    let rest = u.skip(k);
    assert(rest =~= host + path);
    if path.len() == 0 {
        assert(rest =~= host);
        lemma_find_char_none(host, '/');
    } else {
        lemma_find_char_after(host, path, '/');
        assert(rest.take(host.len() as int) =~= host);
        assert(rest.skip(host.len() as int) =~= path);
    }
    lemma_find_char_none(host, ':');
}

/// `\r\n\r\n` starts at `j`.
pub open spec fn blank_at(d: Seq<u8>, j: int) -> bool {
    d[j] == 13 && d[j + 1] == 10 && d[j + 2] == 13 && d[j + 3] == 10
}

/// `\r\n` starts at `j`.
pub open spec fn crlf_at(d: Seq<u8>, j: int) -> bool {
    d[j] == 13 && d[j + 1] == 10
}

/// Position of the first `\r\n\r\n` at or after `i`.
pub open spec fn blank_from(d: Seq<u8>, i: int) -> Option<int>
    decreases d.len() - i,
{
    if i < 0 || i + 4 > d.len() {
        None
    } else if blank_at(d, i) {
        Some(i)
    } else {
        blank_from(d, i + 1)
    }
}

/// Position of the first `\r\n\r\n` in `d`.
pub open spec fn header_end(d: Seq<u8>) -> Option<int> {
    blank_from(d, 0)
}

/// Position of the first `\r\n` at or after `i`.
pub open spec fn crlf_from(d: Seq<u8>, i: int) -> Option<int>
    decreases d.len() - i,
{
    if i < 0 || i + 2 > d.len() {
        None
    } else if crlf_at(d, i) {
        Some(i)
    } else {
        crlf_from(d, i + 1)
    }
}

pub proof fn lemma_blank_from_bound(d: Seq<u8>, i: int)
    ensures
        blank_from(d, i) matches Some(j) ==> i <= j && j + 4 <= d.len(),
    decreases d.len() - i,
{
    if 0 <= i && i + 4 <= d.len() && !blank_at(d, i) {
        lemma_blank_from_bound(d, i + 1);
    }
}

pub proof fn lemma_crlf_from_bound(d: Seq<u8>, i: int)
    ensures
        crlf_from(d, i) matches Some(j) ==> i <= j && j + 2 <= d.len(),
    decreases d.len() - i,
{
    if 0 <= i && i + 2 <= d.len() && !crlf_at(d, i) {
        lemma_crlf_from_bound(d, i + 1);
    }
}

/// The end of the header block: the index of the first `\r\n\r\n`.
pub fn find_header_end(data: &[u8]) -> (r: Option<usize>)
    ensures
        r matches Some(i) ==> header_end(data@) == Some(i as int),
        r is None ==> header_end(data@) is None,
{
    let n = data.len();
    if n < 4 {
        return None;
    }
    let mut i: usize = 0;
    while i + 3 < n
        invariant
            n == data@.len(),
            n >= 4,
            i + 3 <= n,
            header_end(data@) == blank_from(data@, i as int),
        decreases n - i,
    {
        if data[i] == 13 && data[i + 1] == 10 && data[i + 2] == 13 && data[i + 3] == 10 {
            return Some(i);
        }
        i += 1;
    }
    None
}

/// The first `\r\n` at or after `from`.
pub fn find_crlf(data: &[u8], from: usize) -> (r: Option<usize>)
    requires
        from <= data.len(),
    ensures
        r matches Some(i) ==> crlf_from(data@, from as int) == Some(i as int),
        r is None ==> crlf_from(data@, from as int) is None,
{
    let n = data.len();
    let mut i = from;
    while n - i >= 2
        invariant
            n == data@.len(),
            from <= i,
            i <= n,
            crlf_from(data@, from as int) == crlf_from(data@, i as int),
        decreases n - i,
    {
        if data[i] == 13 && data[i + 1] == 10 {
            return Some(i);
        }
        i += 1;
    }
    None
}

/// How decoding a chunked body ends.
pub enum Chunked {
    /// The decoded body.
    Done(Seq<u8>),
    /// A chunk-size line is not UTF-8 or not a hex number.
    Invalid,
    /// The next chunk-size line would start past the end of the data.
    Overrun,
}

/// Decodes the chunks from `pos` on, after `acc` was decoded: each chunk is a
/// hex size line ended by `\r\n`, the data, and `\r\n`. Decoding stops at a
/// size of 0, at a missing line end, and at a chunk longer than the data.
pub open spec fn chunked_from(d: Seq<u8>, pos: nat, acc: Seq<u8>) -> Chunked
    decreases d.len() + 3 - pos,
{
    if pos > d.len() {
        Chunked::Overrun
    } else {
        match crlf_from(d, pos as int) {
            None => Chunked::Done(acc),
            Some(e) => match utf8_text(d.subrange(pos as int, e)) {
                None => Chunked::Invalid,
                Some(t) => match parse_hex(trim(t)) {
                    None => Chunked::Invalid,
                    Some(n) => if n == 0 {
                        Chunked::Done(acc)
                    } else {
                        let p2 = e + 2;
                        proof {
                            lemma_crlf_from_bound(d, pos as int);
                        }
                        if p2 + n > d.len() {
                            Chunked::Done(acc)
                        } else {
                            chunked_from(
                                d,
                                (p2 + n + 2) as nat,
                                acc + d.subrange(p2 as int, p2 + n),
                            )
                        }
                    },
                },
            },
        }
    }
}

pub open spec fn chunked(d: Seq<u8>) -> Chunked {
    chunked_from(d, 0, Seq::empty())
}

/// Copies `data[lo..hi]`.
fn bytes_range(data: &[u8], lo: usize, hi: usize) -> (r: Vec<u8>)
    requires
        lo <= hi <= data.len(),
    ensures
        r@ == data@.subrange(lo as int, hi as int),
{
    let mut r: Vec<u8> = Vec::new();
    let mut i = lo;
    while i < hi
        invariant
            lo <= i <= hi <= data.len(),
            r@ == data@.subrange(lo as int, i as int),
        decreases hi - i,
    {
        r.push(data[i]);
        i += 1;
        assert(r@ =~= data@.subrange(lo as int, i as int));
    }
    r
}

/// The size a chunk-size line states: trimmed, then read as hex.
pub fn chunk_size_of(line: &str) -> (r: Option<usize>)
    ensures
        r matches Some(n) ==> parse_hex(trim(line@)) == Some(n as nat),
        r is None ==> parse_hex(trim(line@)) is None,
{
    let c = chars_of(line);
    let (lo, hi) = trim_bounds(&c, 0, c.len());
    assert(c@.subrange(0, c.len() as int) =~= line@);
    parse_hex_exec(&c, lo, hi)
}

/// Walks the chunks of a chunked body; the flag tells whether the walk
/// would read past the end of the data.
fn walk_chunks(data: &[u8]) -> (r: (Result<Vec<u8>, ContainerError>, bool))
    ensures
        r.1 == (chunked(data@) is Overrun),
        match chunked(data@) {
            Chunked::Done(b) => r.0 is Ok && r.0->Ok_0@ == b,
            Chunked::Invalid => r.0 is Err && r.0->Err_0 is Network,
            Chunked::Overrun => true,
        },
{
    let mut result: Vec<u8> = Vec::new();
    let mut pos: usize = 0;
    loop
        invariant
            pos <= data.len(),
            chunked(data@) == chunked_from(data@, pos as nat, result@),
        decreases data.len() + 3 - pos,
    {
        let line_end = match find_crlf(data, pos) {
            Some(i) => i,
            None => {
                return (Ok(result), false);
            },
        };
        proof {
            lemma_crlf_from_bound(data@, pos as int);
        }
        let line = bytes_range(data, pos, line_end);
        let size_str = match decode_utf8(line.as_slice()) {
            Some(s) => s,
            None => {
                return (Err(ContainerError::Network("invalid chunk size".to_string())), false);
            },
        };
        let chunk_size = match chunk_size_of(size_str.as_str()) {
            Some(n) => n,
            None => {
                return (Err(ContainerError::Network("invalid chunk size".to_string())), false);
            },
        };
        if chunk_size == 0 {
            return (Ok(result), false);
        }
        let p2 = line_end + 2;
        if chunk_size > data.len() - p2 {
            return (Ok(result), false);
        }
        let chunk = bytes_range(data, p2, p2 + chunk_size);
        let ghost before = result@;
        let mut k: usize = 0;
        while k < chunk.len()
            invariant
                k <= chunk@.len(),
                result@ == before + chunk@.take(k as int),
            decreases chunk@.len() - k,
        {
            result.push(chunk[k]);
            k += 1;
            assert(result@ =~= before + chunk@.take(k as int));
        }
        assert(chunk@.take(chunk@.len() as int) =~= chunk@);
        if data.len() - p2 - chunk_size < 2 {
            assert(chunked_from(data@, (p2 + chunk_size + 2) as nat, result@) is Overrun);
            return (Ok(result), true);
        }
        pos = p2 + chunk_size + 2;
    }
}

/// Decodes a body sent with chunked transfer encoding.
pub fn decode_chunked(data: &[u8]) -> (r: Result<Vec<u8>, ContainerError>)
    requires
        !(chunked(data@) is Overrun),
    ensures
        match chunked(data@) {
            Chunked::Done(b) => r is Ok && r->Ok_0@ == b,
            _ => r is Err && r->Err_0 is Network,
        },
{
    walk_chunks(data).0
}

/// Decodes a chunked body, or gives `None` when decoding would read past the
/// end of the data.
pub fn try_decode_chunked(data: &[u8]) -> (r: Option<Result<Vec<u8>, ContainerError>>)
    ensures
        r is None <==> chunked(data@) is Overrun,
        match chunked(data@) {
            Chunked::Done(b) => r matches Some(Ok(x)) && x@ == b,
            Chunked::Invalid => r matches Some(Err(e)) && e is Network,
            Chunked::Overrun => true,
        },
{
    let (res, overrun) = walk_chunks(data);
    if overrun {
        None
    } else {
        Some(res)
    }
}

/// Whether `sub` occurs in `s`.
pub open spec fn contains_text(s: Seq<char>, sub: Seq<char>) -> bool {
    exists|i: int| 0 <= i && i + sub.len() <= s.len() && #[trigger] s.subrange(i, i + sub.len()) == sub
}

/// `str::contains` for a literal.
pub(crate) fn contains_lit(s: &str, lit: &str) -> (r: bool)
    ensures
        r == contains_text(s@, lit@),
{
    let c = chars_of(s);
    let l = chars_of(lit);
    let n = c.len();
    let m = l.len();
    if m == 0 {
        assert(s@.subrange(0, 0 + lit@.len() as int) =~= lit@);
        return true;
    }
    if m > n {
        proof {
            assert forall|i: int| 0 <= i && i + lit@.len() <= s@.len() implies #[trigger] s@.subrange(i, i + lit@.len()) != lit@ by {}
        }
        return false;
    }
    let mut i: usize = 0;
    while i <= n - m
        invariant
            n == s@.len(),
            m == lit@.len(),
            c@ == s@,
            m <= n,
            m > 0,
            i <= n - m + 1,
            forall|j: int| 0 <= j < i ==> #[trigger] s@.subrange(j, j + m) != lit@,
        decreases n - m + 1 - i,
    {
        if range_eq_lit(&c, i, i + m, lit) {
            assert(s@.subrange(i as int, i + lit@.len()) == lit@);
            return true;
        }
        i += 1;
    }
    proof {
        assert forall|j: int| 0 <= j && j + lit@.len() <= s@.len() implies #[trigger] s@.subrange(j, j + lit@.len()) != lit@ by {
            assert(j < i);
        }
    }
    false
}

/// The headers of the lines after the status line: each line with a `:` sets
/// the header named by the trimmed, lowercased text before it to the trimmed
/// text after it.
pub open spec fn header_fold(ls: Seq<Seq<char>>) -> Seq<(Seq<char>, Seq<char>)>
    decreases ls.len(),
{
    if ls.len() == 0 {
        Seq::empty()
    } else {
        let acc = header_fold(ls.drop_last());
        let line = ls.last();
        match find_char(line, ':') {
            Some(c) => env_insert(acc, lowercase(trim(line.take(c))), trim(line.skip(c + 1))),
            None => acc,
        }
    }
}

/// The status code and headers of a response head.
pub open spec fn parse_head_spec(text: Seq<char>) -> Option<(u16, Seq<(Seq<char>, Seq<char>)>)> {
    let ls = lines(text);
    if ls.len() == 0 {
        None
    } else {
        let w = split_ws(ls[0]);
        if w.len() < 2 {
            None
        } else {
            match parse_uint_max(w[1], 65535) {
                Some(st) => Some((st as u16, header_fold(ls.drop_first()))),
                None => None,
            }
        }
    }
}

/// Parses the head of a response (status line and header lines).
pub fn parse_head(text: &str) -> (r: Result<(u16, EnvMap), ContainerError>)
    ensures
        match parse_head_spec(text@) {
            Some((st, h)) => r is Ok && r->Ok_0.0 == st && r->Ok_0.1@ == h && r->Ok_0.1.wf(),
            None => r is Err && r->Err_0 is Network,
        },
{
    let d = chars_of(text);
    let n = d.len();
    assert(d@.skip(0) =~= d@);
    if n == 0 {
        assert(lines(d@) =~= Seq::<Seq<char>>::empty());
        return Err(ContainerError::Network("missing status line".to_string()));
    }
    let (e, next) = next_line(&d, 0);
    let ghost all = lines(d@);
    let ghost rest = lines(d@.skip(next as int));
    assert(all.drop_first() =~= rest);
    let w = split_ws_ranges(&d, 0, e);
    if w.len() < 2 {
        return Err(ContainerError::Network("missing status code".to_string()));
    }
    let (a, b) = w[1];
    assert(0 <= w@[1].0 <= w@[1].1 <= e);
    let status: u16 = match parse_uint_exec(&d, a, b, 65535) {
        Some(v) => v as u16,
        None => {
            return Err(ContainerError::Network("invalid status code".to_string()));
        },
    };
    let mut headers = EnvMap::new();
    let mut pos = next;
    let ghost mut k: int = 0;
    while pos < n
        invariant
            n == d@.len(),
            pos <= n,
            0 <= k <= rest.len(),
            lines(d@.skip(pos as int)) == rest.skip(k),
            headers.wf(),
            headers@ == header_fold(rest.take(k)),
        decreases n - pos,
    {
        let (le, nx) = next_line(&d, pos);
        let ghost line = d@.subrange(pos as int, le as int);
        assert(rest.skip(k).len() > 0);
        assert(rest[k] == line) by {
            assert(rest.skip(k)[0] == rest[k]);
        }
        assert(rest.skip(k + 1) =~= rest.skip(k).drop_first());
        assert(rest.take(k + 1).drop_last() =~= rest.take(k));
        assert(rest.take(k + 1).last() == line);
        match find_from(&d, pos, le, ':') {
            Some(c) => {
                assert(line.take(c - pos) =~= d@.subrange(pos as int, c as int));
                assert(line.skip(c - pos + 1) =~= d@.subrange(c + 1, le as int));
                let (klo, khi) = trim_bounds(&d, pos, c);
                let (vlo, vhi) = trim_bounds(&d, c + 1, le);
                let key = string_of_range(&d, klo, khi);
                let lk = to_lower(key.as_str());
                let v = string_of_range(&d, vlo, vhi);
                headers.insert(lk, v);
            },
            None => {},
        }
        pos = nx;
        proof {
            k = k + 1;
        }
    }
    assert(d@.skip(pos as int) =~= Seq::<char>::empty());
    assert(lines(Seq::<char>::empty()) =~= Seq::<Seq<char>>::empty());
    assert(rest.take(k) =~= rest);
    Ok((status, headers))
}

/// Whether a header map says the body is chunked.
pub open spec fn is_chunked(h: Seq<(Seq<char>, Seq<char>)>) -> bool {
    match env_lookup(h, "transfer-encoding"@) {
        Some(v) => contains_text(v, "chunked"@),
        None => false,
    }
}

/// How a raw response decodes; `None` where it is malformed.
pub open spec fn response_spec(data: Seq<u8>) -> Option<(u16, Seq<(Seq<char>, Seq<char>)>, Seq<u8>)> {
    match header_end(data) {
        None => None,
        Some(he) => match parse_head_spec(lossy_text(data.take(he))) {
            None => None,
            Some((st, h)) => {
                let body = data.skip(he + 4);
                if is_chunked(h) {
                    match chunked(body) {
                        Chunked::Done(b) => Some((st, h, b)),
                        _ => None,
                    }
                } else {
                    Some((st, h, body))
                }
            },
        },
    }
}

/// A chunked body that would be read past its end.
pub open spec fn response_overruns(data: Seq<u8>) -> bool {
    match header_end(data) {
        None => false,
        Some(he) => match parse_head_spec(lossy_text(data.take(he))) {
            None => false,
            Some((st, h)) => is_chunked(h) && chunked(data.skip(he + 4)) is Overrun,
        },
    }
}

/// Parses a raw HTTP/1.1 response; the flag tells whether its chunked body
/// would be read past its end.
fn read_response(data: &[u8]) -> (r: (Result<HttpResponse, ContainerError>, bool))
    ensures
        r.1 == response_overruns(data@),
        !r.1 ==> match response_spec(data@) {
            Some((st, h, b)) => r.0 is Ok && r.0->Ok_0.status == st && r.0->Ok_0.headers@ == h
                && r.0->Ok_0.headers.wf() && r.0->Ok_0.body@ == b,
            None => r.0 is Err && r.0->Err_0 is Network,
        },
{
    let he = match find_header_end(data) {
        Some(i) => i,
        None => {
            return (Err(ContainerError::Network("malformed HTTP response".to_string())), false);
        },
    };
    proof {
        lemma_blank_from_bound(data@, 0);
        assert(blank_from(data@, 0) == Some(he as int));
        assert(he + 4 <= data@.len());
    }
    let head = bytes_range(data, 0, he);
    assert(head@ =~= data@.take(he as int));
    let n = data.len();
    assert(he + 4 <= n);
    let body_start: usize = he + 4;
    let body = bytes_range(data, body_start, data.len());
    assert(body@ =~= data@.skip(he + 4));
    let text = text_of_bytes(head.as_slice());
    let (status, headers) = match parse_head(text.as_str()) {
        Ok(x) => x,
        Err(e) => {
            return (Err(e), false);
        },
    };
    let chunked_body = match headers.get("transfer-encoding") {
        Some(v) => contains_lit(v.as_str(), "chunked"),
        None => false,
    };
    if chunked_body {
        let (res, overrun) = walk_chunks(body.as_slice());
        match res {
            Ok(b) => (Ok(HttpResponse { status, headers, body: b }), overrun),
            Err(e) => (Err(e), overrun),
        }
    } else {
        (Ok(HttpResponse { status, headers, body }), false)
    }
}

/// Parses a raw HTTP/1.1 response.
pub fn parse_http_response(data: &[u8]) -> (r: Result<HttpResponse, ContainerError>)
    requires
        !response_overruns(data@),
    ensures
        match response_spec(data@) {
            Some((st, h, b)) => r is Ok && r->Ok_0.status == st && r->Ok_0.headers@ == h
                && r->Ok_0.headers.wf() && r->Ok_0.body@ == b,
            None => r is Err && r->Err_0 is Network,
        },
{
    read_response(data).0
}

/// Parses a raw HTTP/1.1 response, or gives `None` when its chunked body
/// would be read past its end.
pub fn try_parse_http_response(data: &[u8]) -> (r: Option<Result<HttpResponse, ContainerError>>)
    ensures
        r is None <==> response_overruns(data@),
        r matches Some(x) ==> match response_spec(data@) {
            Some((st, h, b)) => x is Ok && x->Ok_0.status == st && x->Ok_0.headers@ == h
                && x->Ok_0.headers.wf() && x->Ok_0.body@ == b,
            None => x is Err && x->Err_0 is Network,
        },
{
    let (res, overrun) = read_response(data);
    if overrun {
        None
    } else {
        Some(res)
    }
}

pub open spec fn ascii_lower(c: char) -> char {
    if 'A' <= c && c <= 'Z' {
        ((c as u32) + 32) as char
    } else {
        c
    }
}

/// `str::eq_ignore_ascii_case`.
pub open spec fn eq_ignore_ascii_case(a: Seq<char>, b: Seq<char>) -> bool {
    a.len() == b.len() && forall|i: int| 0 <= i < a.len() ==> ascii_lower(#[trigger] a[i]) == ascii_lower(b[i])
}

fn lower_char(c: char) -> (r: char)
    ensures
        r == ascii_lower(c),
{
    if 'A' <= c && c <= 'Z' {
        ((c as u32) + 32) as u8 as char
    } else {
        c
    }
}

/// Compares two strings ignoring ASCII case.
pub fn eq_ignore_case(a: &str, b: &str) -> (r: bool)
    ensures
        r == eq_ignore_ascii_case(a@, b@),
{
    let x = chars_of(a);
    let y = chars_of(b);
    if x.len() != y.len() {
        return false;
    }
    let mut i: usize = 0;
    while i < x.len()
        invariant
            x@ == a@,
            y@ == b@,
            x.len() == y.len(),
            i <= x.len(),
            forall|j: int| 0 <= j < i ==> ascii_lower(#[trigger] a@[j]) == ascii_lower(b@[j]),
        decreases x.len() - i,
    {
        if lower_char(x[i]) != lower_char(y[i]) {
            return false;
        }
        i += 1;
    }
    true
}

/// The headers sent to an origin: all of them on the original origin
/// (scheme, host and port), and all but `Authorization` elsewhere.
pub open spec fn filtered_headers(h: Seq<(Seq<char>, Seq<char>)>, same_origin: bool) -> Seq<(Seq<char>, Seq<char>)>
    decreases h.len(),
{
    if h.len() == 0 {
        seq![]
    } else {
        let rest = filtered_headers(h.drop_last(), same_origin);
        if same_origin || !eq_ignore_ascii_case(h.last().0, "authorization"@) {
            rest.push(h.last())
        } else {
            rest
        }
    }
}

/// The state of a GET that follows redirects.
#[derive(Debug)]
pub struct Redirects {
    /// The URL to request next.
    pub current: String,
    /// The scheme of the first URL.
    pub original_scheme: String,
    /// The host of the first URL.
    pub original_host: String,
    /// The port of the first URL.
    pub original_port: u16,
    /// How many more requests may be made.
    pub remaining: u32,
}

impl Redirects {
    /// Starts following redirects from `url`, with at most `max_redirects` requests.
    pub fn new(url: &str, max_redirects: u32) -> (r: Result<Redirects, ContainerError>)
        ensures
            match parse_url(url@) {
                Some((sc, h, p, _)) => r is Ok && r->Ok_0.current@ == url@ && r->Ok_0.original_scheme@ == sc
                    && r->Ok_0.original_host@ == h && r->Ok_0.original_port == p
                    && r->Ok_0.remaining == max_redirects,
                None => r is Err && r->Err_0 is Network,
            },
    {
        let u = match Url::parse(url) {
            Ok(u) => u,
            Err(e) => {
                return Err(e);
            },
        };
        Ok(Redirects {
            current: url.to_string(),
            original_scheme: u.scheme,
            original_host: u.host,
            original_port: u.port,
            remaining: max_redirects,
        })
    }

    /// The next request: the URL and the headers to send with it, without
    /// `Authorization` when the URL's origin differs from the first URL's.
    /// Fails when no request is left or the URL is invalid.
    pub fn next_request(&self, headers: &Vec<(String, String)>) -> (r: Result<(String, Vec<(String, String)>), ContainerError>)
        ensures
            self.remaining == 0 ==> r is Err && r->Err_0 is Network,
            self.remaining > 0 ==> match parse_url(self.current@) {
                Some((sc, h, p, _)) => r is Ok && r->Ok_0.0@ == self.current@
                    && pair_views(r->Ok_0.1@) == filtered_headers(
                        pair_views(headers@),
                        sc == self.original_scheme@ && h == self.original_host@ && p == self.original_port,
                    ),
                None => r is Err && r->Err_0 is Network,
            },
    {
        if self.remaining == 0 {
            return Err(ContainerError::Network("too many redirects".to_string()));
        }
        let u = match Url::parse(self.current.as_str()) {
            Ok(u) => u,
            Err(e) => {
                return Err(e);
            },
        };
        let same_origin = u.scheme == self.original_scheme && u.host == self.original_host
            && u.port == self.original_port;
        let mut out: Vec<(String, String)> = Vec::new();
        let mut i: usize = 0;
        while i < headers.len()
            invariant
                i <= headers@.len(),
                pair_views(out@) == filtered_headers(pair_views(headers@).take(i as int), same_origin),
            decreases headers@.len() - i,
        {
            let (k, v) = &headers[i];
            let ghost old_out = out@;
            assert(pair_views(headers@).take(i + 1).drop_last() =~= pair_views(headers@).take(i as int));
            if same_origin || !eq_ignore_case(k.as_str(), "authorization") {
                out.push((k.clone(), v.clone()));
                assert(pair_views(out@) =~= pair_views(old_out).push((k@, v@)));
            }
            i += 1;
        }
        assert(pair_views(headers@).take(headers@.len() as int) =~= pair_views(headers@));
        Ok((self.current.clone(), out))
    }

    /// Takes the response to the last request into account: on a redirect
    /// status (301, 302, 307, 308) with a `Location`, moves to that location
    /// (a relative one is resolved against the current URL) and returns
    /// `true`; otherwise returns `false`, and the response is the answer.
    pub fn on_response(&mut self, status: u16, location: Option<&str>) -> (r: Result<bool, ContainerError>)
        requires
            old(self).remaining > 0,
        ensures
            !((status == 301 || status == 302 || status == 307 || status == 308) && location is Some) ==> r == Ok::<bool, ContainerError>(false) && *final(self) == *old(self),
            (status == 301 || status == 302 || status == 307 || status == 308) && location is Some ==> {
                let l = location->0@;
                if 4 <= l.len() && l.take(4) == "http"@ {
                    r == Ok::<bool, ContainerError>(true) && final(self).current@ == l
                        && final(self).remaining == old(self).remaining - 1
                        && final(self).original_host == old(self).original_host
                        && final(self).original_scheme == old(self).original_scheme
                        && final(self).original_port == old(self).original_port
                } else {
                    match parse_url(old(self).current@) {
                        Some((sc, h, p, _)) => r == Ok::<bool, ContainerError>(true) && final(self).current@
                            == sc + "://"@ + h + seq![':'] + decimal(p as nat) + l
                            && final(self).remaining == old(self).remaining - 1
                            && final(self).original_host == old(self).original_host
                        && final(self).original_scheme == old(self).original_scheme
                        && final(self).original_port == old(self).original_port,
                        None => r is Err && r->Err_0 is Network,
                    }
                }
            },
    {
        if !(status == 301 || status == 302 || status == 307 || status == 308) {
            return Ok(false);
        }
        let loc = match location {
            Some(l) => l,
            None => {
                return Ok(false);
            },
        };
        let lc = chars_of(loc);
        if range_starts_with_lit(&lc, 0, lc.len(), "http") {
            proof {
                reveal_strlit("http");
                assert(lc@.subrange(0, 4) =~= loc@.take(4));
            }
            self.current = loc.to_string();
            self.remaining = self.remaining - 1;
            return Ok(true);
        }
        proof {
            reveal_strlit("http");
            if 4 <= loc@.len() {
                assert(lc@.subrange(0, 4) =~= loc@.take(4));
            }
        }
        let u = match Url::parse(self.current.as_str()) {
            Ok(u) => u,
            Err(e) => {
                return Err(e);
            },
        };
        let mut out = chars_of(u.scheme.as_str());
        extend_chars(&mut out, "://");
        extend_chars(&mut out, u.host.as_str());
        out.push(':');
        push_decimal(&mut out, u.port as u64);
        extend_chars(&mut out, loc);
        self.current = string_of(&out);
        self.remaining = self.remaining - 1;
        Ok(true)
    }
}


/// Parses a raw header block, such as the one a system HTTP stack hands
/// back: every line with a `:` sets the header named by the trimmed,
/// lowercased text before it to the trimmed text after it.
pub fn parse_header_block(text: &str) -> (h: EnvMap)
    ensures
        h.wf(),
        h@ == header_fold(lines(text@)),
{
    let d = chars_of(text);
    let n = d.len();
    let ghost rest = lines(d@);
    assert(d@.skip(0) =~= d@);
    let mut headers = EnvMap::new();
    let mut pos: usize = 0;
    let ghost mut k: int = 0;
    while pos < n
        invariant
            n == d@.len(),
            d@ == text@,
            rest == lines(d@),
            pos <= n,
            0 <= k <= rest.len(),
            lines(d@.skip(pos as int)) == rest.skip(k),
            headers.wf(),
            headers@ == header_fold(rest.take(k)),
        decreases n - pos,
    {
        let (le, nx) = next_line(&d, pos);
        let ghost line = d@.subrange(pos as int, le as int);
        assert(rest.skip(k).len() > 0);
        assert(rest[k] == line) by {
            assert(rest.skip(k)[0] == rest[k]);
        }
        assert(rest.skip(k + 1) =~= rest.skip(k).drop_first());
        assert(rest.take(k + 1).drop_last() =~= rest.take(k));
        assert(rest.take(k + 1).last() == line);
        match find_from(&d, pos, le, ':') {
            Some(c) => {
                assert(line.take(c - pos) =~= d@.subrange(pos as int, c as int));
                assert(line.skip(c - pos + 1) =~= d@.subrange(c + 1, le as int));
                let (klo, khi) = trim_bounds(&d, pos, c);
                let (vlo, vhi) = trim_bounds(&d, c + 1, le);
                let key = string_of_range(&d, klo, khi);
                let lk = to_lower(key.as_str());
                let v = string_of_range(&d, vlo, vhi);
                headers.insert(lk, v);
            },
            None => {},
        }
        pos = nx;
        proof {
            k = k + 1;
        }
    }
    assert(d@.skip(pos as int) =~= Seq::<char>::empty());
    assert(lines(Seq::<char>::empty()) =~= Seq::<Seq<char>>::empty());
    assert(rest.take(k) =~= rest);
    headers
}

/// `name: value` lines, each ended by CRLF.
pub open spec fn header_lines(h: Seq<(Seq<char>, Seq<char>)>) -> Seq<char>
    decreases h.len(),
{
    if h.len() == 0 {
        Seq::empty()
    } else {
        header_lines(h.drop_last()) + h.last().0 + seq![':', ' '] + h.last().1 + seq!['\r', '\n']
    }
}

/// The text of a GET request for `url` with extra `headers`.
pub open spec fn request_text(url: Url, headers: Seq<(Seq<char>, Seq<char>)>) -> Seq<char> {
    "GET "@ + url.path@ + " HTTP/1.1\r\nHost: "@ + host_header_of(url) + "\r\nConnection: close\r\n"@
        + header_lines(headers) + seq!['\r', '\n']
}

/// Builds the GET request sent over a plain connection.
pub fn build_request(url: &Url, headers: &[(String, String)]) -> (r: String)
    ensures
        r@ == request_text(*url, pair_views(headers@)),
{
    let mut v: Vec<char> = Vec::new();
    extend_chars(&mut v, "GET ");
    extend_chars(&mut v, url.path.as_str());
    extend_chars(&mut v, " HTTP/1.1\r\nHost: ");
    let hh = url.host_header();
    extend_chars(&mut v, hh.as_str());
    extend_chars(&mut v, "\r\nConnection: close\r\n");
    let ghost v0 = v@;
    let mut i: usize = 0;
    assert(pair_views(headers@).take(0) =~= Seq::<(Seq<char>, Seq<char>)>::empty());
    while i < headers.len()
        invariant
            i <= headers@.len(),
            v@ == v0 + header_lines(pair_views(headers@).take(i as int)),
        decreases headers@.len() - i,
    {
        extend_chars(&mut v, headers[i].0.as_str());
        v.push(':');
        v.push(' ');
        extend_chars(&mut v, headers[i].1.as_str());
        v.push('\r');
        v.push('\n');
        assert(pair_views(headers@).take(i + 1).drop_last() =~= pair_views(headers@).take(i as int));
        i += 1;
        assert(v@ =~= v0 + header_lines(pair_views(headers@).take(i as int)));
    }
    assert(pair_views(headers@).take(headers@.len() as int) =~= pair_views(headers@));
    v.push('\r');
    v.push('\n');
    assert(v@ =~= request_text(*url, pair_views(headers@)));
    string_of(&v)
}

/// `-H` and `name: value` for each header.
pub open spec fn curl_header_args(h: Seq<(Seq<char>, Seq<char>)>) -> Seq<Seq<char>>
    decreases h.len(),
{
    if h.len() == 0 {
        Seq::empty()
    } else {
        curl_header_args(h.drop_last()) + seq!["-H"@, h.last().0 + seq![':', ' '] + h.last().1]
    }
}

/// `scheme://host:port/path`.
pub open spec fn full_url(url: Url) -> Seq<char> {
    url.scheme@ + "://"@ + url.host@ + seq![':'] + decimal(url.port as nat) + url.path@
}

/// The arguments of the `curl` call that fetches `url`: silent, with the
/// response head, following redirects, one `-H` per header, then the URL.
pub fn curl_args(url: &Url, headers: &[(String, String)]) -> (r: Vec<String>)
    ensures
        string_views(r@) == seq!["-s"@, "-i"@, "-L"@] + curl_header_args(pair_views(headers@)) + seq![
            full_url(*url),
        ],
{
    let mut r: Vec<String> = Vec::new();
    r.push("-s".to_owned());
    r.push("-i".to_owned());
    r.push("-L".to_owned());
    let ghost r0 = string_views(r@);
    assert(r0 =~= seq!["-s"@, "-i"@, "-L"@]);
    let mut i: usize = 0;
    assert(pair_views(headers@).take(0) =~= Seq::<(Seq<char>, Seq<char>)>::empty());
    while i < headers.len()
        invariant
            i <= headers@.len(),
            string_views(r@) == r0 + curl_header_args(pair_views(headers@).take(i as int)),
        decreases headers@.len() - i,
    {
        let mut h: Vec<char> = Vec::new();
        extend_chars(&mut h, headers[i].0.as_str());
        h.push(':');
        h.push(' ');
        extend_chars(&mut h, headers[i].1.as_str());
        let ghost before = r@;
        r.push("-H".to_owned());
        r.push(string_of(&h));
        assert(pair_views(headers@).take(i + 1).drop_last() =~= pair_views(headers@).take(i as int));
        assert(string_views(r@) =~= string_views(before) + seq!["-H"@, h@]);
        assert(pair_views(headers@).take(i + 1).last() == (headers@[i as int].0@, headers@[i as int].1@));
        assert(h@ =~= headers@[i as int].0@ + seq![':', ' '] + headers@[i as int].1@);
        i += 1;
        assert(string_views(r@) =~= r0 + curl_header_args(pair_views(headers@).take(i as int)));
    }
    assert(pair_views(headers@).take(headers@.len() as int) =~= pair_views(headers@));
    let mut u: Vec<char> = Vec::new();
    extend_chars(&mut u, url.scheme.as_str());
    extend_chars(&mut u, "://");
    extend_chars(&mut u, url.host.as_str());
    u.push(':');
    push_decimal(&mut u, url.port as u64);
    extend_chars(&mut u, url.path.as_str());
    let ghost before = r@;
    r.push(string_of(&u));
    assert(string_views(r@) =~= string_views(before) + seq![u@]);
    assert(u@ =~= full_url(*url));
    r
}

/// The response from a `curl` run: a failed run with no output is an
/// error carrying its error output; otherwise the output is parsed, unless
/// its chunked body would be read past its end (`None`).
pub fn curl_outcome(success: bool, stdout: &[u8], stderr: &[u8]) -> (r: Option<Result<HttpResponse, ContainerError>>)
    ensures
        !success && stdout@.len() == 0 ==> (r matches Some(Err(ContainerError::Network(m))) && m@ == "curl failed: "@
            + lossy_text(stderr@)),
        !(!success && stdout@.len() == 0) ==> (r is None <==> response_overruns(stdout@)),
        !(!success && stdout@.len() == 0) ==> (r matches Some(x) ==> match response_spec(stdout@) {
            Some((st, h, b)) => x is Ok && x->Ok_0.status == st && x->Ok_0.headers@ == h && x->Ok_0.body@ == b,
            None => x is Err && x->Err_0 is Network,
        }),
{
    if !success && stdout.len() == 0 {
        let e = text_of_bytes(stderr);
        let mut v: Vec<char> = Vec::new();
        extend_chars(&mut v, "curl failed: ");
        extend_chars(&mut v, e.as_str());
        return Some(Err(ContainerError::Network(string_of(&v))));
    }
    try_parse_http_response(stdout)
}

} // verus!
