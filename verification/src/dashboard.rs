//! The web dashboard's request handling: reading the request line and
//! headers, routing, the response head, and the JSON bodies of its API.
use vstd::prelude::*;
use vstd::string::StringSliceAdditionalSpecFns;
use crate::config::{ContainerConfig, state_name};
use crate::http::{lowercase, to_lower};
use crate::text::{
    chars_of, decimal, extend_chars, lines, next_line, parse_uint_exec, parse_uint_max, push_decimal,
    range_eq_lit, range_starts_with_lit, ranges_view, split_char, split_ranges, split_ws,
    split_ws_ranges, string_of, string_of_range, trim, trim_bounds,
};
use crate::webtext::{escape_all, escape_json, url_decode, urldecode};

verus! {

/// Whether `s` begins with `p`.
pub open spec fn has_prefix(s: Seq<char>, p: Seq<char>) -> bool {
    p.len() <= s.len() && s.take(p.len() as int) == p
}

/// The method and path of a request line: its first two words.
pub open spec fn request_line_of(line: Seq<char>) -> Option<(Seq<char>, Seq<char>)> {
    let w = split_ws(line);
    if w.len() < 2 {
        None
    } else {
        Some((w[0], w[1]))
    }
}

/// Reads the method and path from a request line; `None` means a bad request.
pub fn parse_request_line(line: &str) -> (r: Option<(String, String)>)
    ensures
        match request_line_of(line@) {
            Some((m, p)) => r matches Some(x) && x.0@ == m && x.1@ == p,
            None => r is None,
        },
{
    let c = chars_of(line);
    let w = split_ws_ranges(&c, 0, c.len());
    assert(c@.subrange(0, c@.len() as int) =~= line@);
    if w.len() < 2 {
        return None;
    }
    let (a, b) = w[0];
    let (x, y) = w[1];
    Some((string_of_range(&c, a, b), string_of_range(&c, x, y)))
}

/// Whether a header line ends the headers: it is blank once trimmed.
pub fn is_end_of_headers(line: &str) -> (r: bool)
    ensures
        r == (trim(line@).len() == 0),
{
    let c = chars_of(line);
    let (lo, hi) = trim_bounds(&c, 0, c.len());
    assert(c@.subrange(0, c@.len() as int) =~= line@);
    lo == hi
}

/// The body length a header line announces: for a line that, lowercased,
/// starts with `content-length:`, the trimmed text after the first `:` (up
/// to a second one) as a number, or 0 when it is not one; `None` for any
/// other line.
pub open spec fn content_length_of(line: Seq<char>) -> Option<usize> {
    if has_prefix(lowercase(line), "content-length:"@) {
        let parts = split_char(line, ':');
        Some(
            if parts.len() > 1 {
                match parse_uint_max(trim(parts[1]), usize::MAX as nat) {
                    Some(n) => n as usize,
                    None => 0,
                }
            } else {
                0
            },
        )
    } else {
        None
    }
}

/// Reads a `Content-Length` header line.
pub fn header_content_length(line: &str) -> (r: Option<usize>)
    ensures
        r == content_length_of(line@),
{
    let low = to_lower(line);
    let lc = chars_of(low.as_str());
    if !range_starts_with_lit(&lc, 0, lc.len(), "content-length:") {
        proof {
            reveal_strlit("content-length:");
        }
        return None;
    }
    proof {
        reveal_strlit("content-length:");
        assert(lc@.subrange(0, 15) =~= lc@.take(15));
    }
    let c = chars_of(line);
    let parts = split_ranges(&c, 0, c.len(), ':');
    assert(c@.subrange(0, c@.len() as int) =~= line@);
    if parts.len() > 1 {
        let (a, b) = parts[1];
        let (lo, hi) = trim_bounds(&c, a, b);
        let n = match parse_uint_exec(&c, lo, hi, usize::MAX as u64) {
            Some(v) => v as usize,
            None => 0,
        };
        Some(n)
    } else {
        Some(0)
    }
}

/// Where a request goes.
pub enum Route {
    Index,
    Containers,
    Images,
    System,
    /// Pull the image named by the URL-decoded rest of the path.
    Pull(String),
    /// Stop the named container.
    Stop(String),
    /// Remove the named container.
    Rm(String),
    NotFound,
}

/// The mathematical form of a [`Route`].
pub enum RouteView {
    Index,
    Containers,
    Images,
    System,
    Pull(Seq<char>),
    Stop(Seq<char>),
    Rm(Seq<char>),
    NotFound,
}

impl View for Route {
    type V = RouteView;

    open spec fn view(&self) -> RouteView {
        match self {
            Route::Index => RouteView::Index,
            Route::Containers => RouteView::Containers,
            Route::Images => RouteView::Images,
            Route::System => RouteView::System,
            Route::Pull(s) => RouteView::Pull(s@),
            Route::Stop(s) => RouteView::Stop(s@),
            Route::Rm(s) => RouteView::Rm(s@),
            Route::NotFound => RouteView::NotFound,
        }
    }
}

/// The route of a method and path.
pub open spec fn route_of(method: Seq<char>, path: Seq<char>) -> RouteView {
    if method == "GET"@ && (path == "/"@ || path == "/index.html"@) {
        RouteView::Index
    } else if method == "GET"@ && path == "/api/containers"@ {
        RouteView::Containers
    } else if method == "GET"@ && path == "/api/images"@ {
        RouteView::Images
    } else if method == "GET"@ && path == "/api/system"@ {
        RouteView::System
    } else if method == "POST"@ && has_prefix(path, "/api/pull/"@) {
        RouteView::Pull(url_decode(vstd::utf8::encode_utf8(path.skip(10))))
    } else if method == "POST"@ && has_prefix(path, "/api/stop/"@) {
        RouteView::Stop(path.skip(10))
    } else if method == "POST"@ && has_prefix(path, "/api/rm/"@) {
        RouteView::Rm(path.skip(8))
    } else {
        RouteView::NotFound
    }
}

/// Routes a request.
pub fn route(method: &str, path: &str) -> (r: Route)
    ensures
        r@ == route_of(method@, path@),
{
    let m = chars_of(method);
    let p = chars_of(path);
    let mn = m.len();
    let pn = p.len();
    assert(m@.subrange(0, mn as int) =~= method@);
    assert(p@.subrange(0, pn as int) =~= path@);
    proof {
        reveal_strlit("/api/pull/");
        reveal_strlit("/api/stop/");
        reveal_strlit("/api/rm/");
    }
    let get = range_eq_lit(&m, 0, mn, "GET");
    let post = range_eq_lit(&m, 0, mn, "POST");
    if get && (range_eq_lit(&p, 0, pn, "/") || range_eq_lit(&p, 0, pn, "/index.html")) {
        Route::Index
    } else if get && range_eq_lit(&p, 0, pn, "/api/containers") {
        Route::Containers
    } else if get && range_eq_lit(&p, 0, pn, "/api/images") {
        Route::Images
    } else if get && range_eq_lit(&p, 0, pn, "/api/system") {
        Route::System
    } else if post && range_starts_with_lit(&p, 0, pn, "/api/pull/") {
        assert(p@.subrange(0, 10) =~= path@.take(10));
        let rest = string_of_range(&p, 10, pn);
        assert(rest@ =~= path@.skip(10));
        Route::Pull(urldecode(rest.as_str()))
    } else if post && range_starts_with_lit(&p, 0, pn, "/api/stop/") {
        assert(p@.subrange(0, 10) =~= path@.take(10));
        let rest = string_of_range(&p, 10, pn);
        assert(rest@ =~= path@.skip(10));
        Route::Stop(rest)
    } else if post && range_starts_with_lit(&p, 0, pn, "/api/rm/") {
        assert(p@.subrange(0, 8) =~= path@.take(8));
        let rest = string_of_range(&p, 8, pn);
        assert(rest@ =~= path@.skip(8));
        Route::Rm(rest)
    } else {
        proof {
            if post {
                assert(has_prefix(path@, "/api/pull/"@) ==> p@.subrange(0, 10) == "/api/pull/"@) by {
                    assert(p@.subrange(0, 10) =~= path@.take(10));
                }
                assert(has_prefix(path@, "/api/stop/"@) ==> p@.subrange(0, 10) == "/api/stop/"@) by {
                    assert(p@.subrange(0, 10) =~= path@.take(10));
                }
                assert(has_prefix(path@, "/api/rm/"@) ==> p@.subrange(0, 8) == "/api/rm/"@) by {
                    assert(p@.subrange(0, 8) =~= path@.take(8));
                }
            }
        }
        Route::NotFound
    }
}

/// The reason phrase of a status code the dashboard sends.
pub open spec fn status_text_of(status: u16) -> Seq<char> {
    if status == 200 {
        "OK"@
    } else if status == 400 {
        "Bad Request"@
    } else if status == 404 {
        "Not Found"@
    } else if status == 500 {
        "Internal Server Error"@
    } else {
        "Unknown"@
    }
}

/// The reason phrase of a status code.
pub fn status_text(status: u16) -> (s: &'static str)
    ensures
        s@ == status_text_of(status),
{
    if status == 200 {
        "OK"
    } else if status == 400 {
        "Bad Request"
    } else if status == 404 {
        "Not Found"
    } else if status == 500 {
        "Internal Server Error"
    } else {
        "Unknown"
    }
}

/// The head of a dashboard response.
pub open spec fn response_head_of(status: u16, content_type: Seq<char>, len: nat) -> Seq<char> {
    "HTTP/1.1 "@ + decimal(status as nat) + seq![' '] + status_text_of(status) + "\r\nContent-Type: "@
        + content_type + "\r\nContent-Length: "@ + decimal(len)
        + "\r\nAccess-Control-Allow-Origin: *\r\nConnection: close\r\n\r\n"@
}

/// Builds the head of a response with a body of `body_len` bytes.
pub fn response_head(status: u16, content_type: &str, body_len: usize) -> (s: String)
    ensures
        s@ == response_head_of(status, content_type@, body_len as nat),
{
    let mut v: Vec<char> = Vec::new();
    extend_chars(&mut v, "HTTP/1.1 ");
    push_decimal(&mut v, status as u64);
    v.push(' ');
    extend_chars(&mut v, status_text(status));
    extend_chars(&mut v, "\r\nContent-Type: ");
    extend_chars(&mut v, content_type);
    extend_chars(&mut v, "\r\nContent-Length: ");
    push_decimal(&mut v, body_len as u64);
    extend_chars(&mut v, "\r\nAccess-Control-Allow-Origin: *\r\nConnection: close\r\n\r\n");
    assert(v@ =~= response_head_of(status, content_type@, body_len as nat));
    string_of(&v)
}

/// The JSON object describing a container.
pub open spec fn container_json_of(c: ContainerConfig) -> Seq<char> {
    "{\"name\":\""@ + escape_all(c.name@) + "\",\"state\":\""@ + state_name(c.state) + "\",\"rootfs\":\""@
        + escape_all(c.rootfs@) + "\",\"memory\":"@ + decimal(c.limits.memory_bytes as nat) + ",\"cpu\":"@
        + decimal(c.limits.cpu_percent as nat) + ",\"pids\":"@ + decimal(c.limits.max_pids as nat)
        + ",\"hostname\":\""@ + escape_all(c.hostname@) + "\",\"pid\":"@ + decimal(c.pid as nat) + "}"@
}

/// Describes a container for the container list.
pub fn container_json(cfg: &ContainerConfig) -> (s: String)
    ensures
        s@ == container_json_of(*cfg),
{
    let mut v: Vec<char> = Vec::new();
    extend_chars(&mut v, "{\"name\":\"");
    extend_chars(&mut v, escape_json(cfg.name.as_str()).as_str());
    extend_chars(&mut v, "\",\"state\":\"");
    extend_chars(&mut v, cfg.state.as_str());
    extend_chars(&mut v, "\",\"rootfs\":\"");
    extend_chars(&mut v, escape_json(cfg.rootfs.as_str()).as_str());
    extend_chars(&mut v, "\",\"memory\":");
    push_decimal(&mut v, cfg.limits.memory_bytes);
    extend_chars(&mut v, ",\"cpu\":");
    push_decimal(&mut v, cfg.limits.cpu_percent as u64);
    extend_chars(&mut v, ",\"pids\":");
    push_decimal(&mut v, cfg.limits.max_pids as u64);
    extend_chars(&mut v, ",\"hostname\":\"");
    extend_chars(&mut v, escape_json(cfg.hostname.as_str()).as_str());
    extend_chars(&mut v, "\",\"pid\":");
    push_decimal(&mut v, cfg.pid as u64);
    extend_chars(&mut v, "}");
    assert(v@ =~= container_json_of(*cfg));
    string_of(&v)
}

/// The first line that begins with `p`.
pub open spec fn first_with_prefix(ls: Seq<Seq<char>>, p: Seq<char>) -> Option<Seq<char>>
    decreases ls.len(),
{
    if ls.len() == 0 {
        None
    } else if has_prefix(ls[0], p) {
        Some(ls[0])
    } else {
        first_with_prefix(ls.drop_first(), p)
    }
}

/// The image name and layer count in an `image.conf`: the rest of the first
/// `image=` line (empty when none) and the first `layers=` line read as a
/// `u32` (0 when none or not a number).
pub open spec fn image_conf_of(conf: Seq<char>) -> (Seq<char>, u32) {
    let ls = lines(conf);
    (
        match first_with_prefix(ls, "image="@) {
            Some(l) => l.skip(6),
            None => Seq::empty(),
        },
        match first_with_prefix(ls, "layers="@) {
            Some(l) => match parse_uint_max(l.skip(7), u32::MAX as nat) {
                Some(n) => n as u32,
                None => 0,
            },
            None => 0,
        },
    )
}

/// Reads the image name and layer count of an `image.conf`.
pub fn image_conf_summary(conf: &str) -> (r: (String, u32))
    ensures
        r.0@ == image_conf_of(conf@).0,
        r.1 == image_conf_of(conf@).1,
{
    let c = chars_of(conf);
    let n = c.len();
    let ghost all = lines(c@);
    assert(c@.skip(0) =~= c@);
    proof {
        reveal_strlit("image=");
        reveal_strlit("layers=");
    }
    let mut name: Option<String> = None;
    let mut layers: Option<u32> = None;
    let mut pos: usize = 0;
    let ghost mut k: int = 0;
    while pos < n
        invariant
            n == c@.len(),
            c@ == conf@,
            all == lines(c@),
            pos <= n,
            0 <= k <= all.len(),
            lines(c@.skip(pos as int)) == all.skip(k),
            first_with_prefix(all, "image="@) == (match name {
                Some(s) => Some("image="@ + s@),
                None => first_with_prefix(all.skip(k), "image="@),
            }),
            first_with_prefix(all, "layers="@) is Some ==> match layers {
                Some(x) => image_conf_of(conf@).1 == x,
                None => first_with_prefix(all, "layers="@) == first_with_prefix(all.skip(k), "layers="@),
            },
            first_with_prefix(all, "layers="@) is None ==> layers is None && first_with_prefix(all.skip(k), "layers="@) is None,
        decreases n - pos,
    {
        proof {
            reveal_strlit("image=");
            reveal_strlit("layers=");
        }
        let (le, nx) = next_line(&c, pos);
        let ghost line = c@.subrange(pos as int, le as int);
        assert(all.skip(k).len() > 0);
        assert(all.skip(k)[0] == line);
        assert(all.skip(k + 1) =~= all.skip(k).drop_first());
        if name.is_none() && range_starts_with_lit(&c, pos, le, "image=") {
            assert(c@.subrange(pos as int, pos + 6) =~= line.take(6));
            let s = string_of_range(&c, pos + 6, le);
            assert(line =~= "image="@ + s@) by {
                assert(line.take(6) == "image="@);
                assert(line.skip(6) =~= s@);
                assert(line =~= line.take(6) + line.skip(6));
            }
            name = Some(s);
        } else {
            proof {
                if name.is_none() {
                    assert(!has_prefix(line, "image="@)) by {
                        if has_prefix(line, "image="@) {
                            assert(c@.subrange(pos as int, pos + 6) =~= line.take(6));
                        }
                    }
                }
            }
        }
        if layers.is_none() && range_starts_with_lit(&c, pos, le, "layers=") {
            assert(c@.subrange(pos as int, pos + 7) =~= line.take(7));
            assert(line.skip(7) =~= c@.subrange(pos + 7, le as int));
            let x = match parse_uint_exec(&c, pos + 7, le, u32::MAX as u64) {
                Some(v) => v as u32,
                None => 0,
            };
            layers = Some(x);
        } else {
            proof {
                if layers.is_none() {
                    assert(!has_prefix(line, "layers="@)) by {
                        if has_prefix(line, "layers="@) {
                            assert(c@.subrange(pos as int, pos + 7) =~= line.take(7));
                        }
                    }
                }
            }
        }
        pos = nx;
        proof {
            k = k + 1;
        }
    }
    assert(c@.skip(pos as int) =~= Seq::<char>::empty());
    assert(lines(Seq::<char>::empty()) =~= Seq::<Seq<char>>::empty());
    let nm = match name {
        Some(s) => s,
        None => String::new(),
    };
    proof {
        if first_with_prefix(all, "image="@) is Some {
            let l = first_with_prefix(all, "image="@)->0;
            assert(l.skip(6) =~= nm@);
        }
    }
    let ly = match layers {
        Some(x) => x,
        None => 0,
    };
    (nm, ly)
}

/// The JSON object describing a local image.
pub open spec fn image_json_of(name: Seq<char>, layers: u32, size: u64, path: Seq<char>) -> Seq<char> {
    "{\"name\":\""@ + escape_all(name) + "\",\"layers\":"@ + decimal(layers as nat) + ",\"size\":"@ + decimal(
        size as nat,
    ) + ",\"path\":\""@ + escape_all(path) + "\"}"@
}

/// Describes a local image for the image list.
pub fn image_json(name: &str, layers: u32, size: u64, path: &str) -> (s: String)
    ensures
        s@ == image_json_of(name@, layers, size, path@),
{
    let mut v: Vec<char> = Vec::new();
    extend_chars(&mut v, "{\"name\":\"");
    extend_chars(&mut v, escape_json(name).as_str());
    extend_chars(&mut v, "\",\"layers\":");
    push_decimal(&mut v, layers as u64);
    extend_chars(&mut v, ",\"size\":");
    push_decimal(&mut v, size);
    extend_chars(&mut v, ",\"path\":\"");
    extend_chars(&mut v, escape_json(path).as_str());
    extend_chars(&mut v, "\"}");
    assert(v@ =~= image_json_of(name@, layers, size, path@));
    string_of(&v)
}

/// Items joined by commas.
pub open spec fn comma_join(items: Seq<Seq<char>>) -> Seq<char>
    decreases items.len(),
{
    if items.len() == 0 {
        Seq::empty()
    } else if items.len() == 1 {
        items[0]
    } else {
        comma_join(items.drop_last()) + seq![','] + items.last()
    }
}

/// A JSON array of already written values: `[a,b,...]`.
pub fn json_list(items: &[String]) -> (s: String)
    ensures
        s@ == seq!['['] + comma_join(items@.map_values(|x: String| x@)) + seq![']'],
{
    let ghost iv = items@.map_values(|x: String| x@);
    let mut v: Vec<char> = Vec::new();
    v.push('[');
    let mut i: usize = 0;
    assert(iv.take(0) =~= Seq::<Seq<char>>::empty());
    while i < items.len()
        invariant
            i <= items@.len(),
            iv == items@.map_values(|x: String| x@),
            v@ == seq!['['] + comma_join(iv.take(i as int)),
        decreases items@.len() - i,
    {
        if i > 0 {
            v.push(',');
        }
        extend_chars(&mut v, items[i].as_str());
        assert(iv.take(i + 1).drop_last() =~= iv.take(i as int));
        assert(iv.take(i + 1).last() == items@[i as int]@);
        if i == 0 {
            assert(iv.take(1) =~= seq![items@[0]@]);
        }
        i += 1;
        assert(v@ =~= seq!['['] + comma_join(iv.take(i as int)));
    }
    v.push(']');
    assert(iv.take(items@.len() as int) =~= iv);
    string_of(&v)
}

/// The system information object.
pub fn system_json(platform: &str, whp_available: bool, state_dir: &str) -> (s: String)
    ensures
        s@ == "{\"version\":\"2.0.0\",\"platform\":\""@ + platform@ + "\",\"whp_available\":"@ + (if whp_available {
            "true"@
        } else {
            "false"@
        }) + ",\"state_dir\":\""@ + escape_all(state_dir@) + "\"}"@,
{
    let mut v: Vec<char> = Vec::new();
    extend_chars(&mut v, "{\"version\":\"2.0.0\",\"platform\":\"");
    extend_chars(&mut v, platform);
    extend_chars(&mut v, "\",\"whp_available\":");
    extend_chars(&mut v, if whp_available { "true" } else { "false" });
    extend_chars(&mut v, ",\"state_dir\":\"");
    extend_chars(&mut v, escape_json(state_dir).as_str());
    extend_chars(&mut v, "\"}");
    string_of(&v)
}

/// The answer to a pull: the rootfs path, or the error's message.
pub fn pull_result_json(r: &Result<String, String>) -> (s: String)
    ensures
        match r {
            Ok(p) => s@ == "{\"success\":true,\"rootfs\":\""@ + escape_all(p@) + "\"}"@,
            Err(e) => s@ == "{\"success\":false,\"error\":\""@ + escape_all(e@) + "\"}"@,
        },
{
    let mut v: Vec<char> = Vec::new();
    match r {
        Ok(p) => {
            extend_chars(&mut v, "{\"success\":true,\"rootfs\":\"");
            extend_chars(&mut v, escape_json(p.as_str()).as_str());
        },
        Err(e) => {
            extend_chars(&mut v, "{\"success\":false,\"error\":\"");
            extend_chars(&mut v, escape_json(e.as_str()).as_str());
        },
    }
    extend_chars(&mut v, "\"}");
    string_of(&v)
}

/// The answer to a stop or remove: success, or the error's message.
pub fn action_result_json(r: &Result<(), String>) -> (s: String)
    ensures
        match r {
            Ok(_) => s@ == "{\"success\":true}"@,
            Err(e) => s@ == "{\"success\":false,\"error\":\""@ + escape_all(e@) + "\"}"@,
        },
{
    match r {
        Ok(_) => "{\"success\":true}".to_owned(),
        Err(e) => {
            let mut v: Vec<char> = Vec::new();
            extend_chars(&mut v, "{\"success\":false,\"error\":\"");
            extend_chars(&mut v, escape_json(e.as_str()).as_str());
            extend_chars(&mut v, "\"}");
            string_of(&v)
        },
    }
}

} // verus!
