use holycontainer::error::ContainerError;
use holycontainer::http::{
    build_request, chunk_size_of, curl_args, curl_outcome, decode_chunked, eq_ignore_case, find_crlf,
    find_header_end, parse_head, parse_header_block, parse_http_response, try_decode_chunked,
    try_parse_http_response, Redirects, Url,
};

#[test]
fn url_parse_forms() {
    let u = Url::parse("https://registry-1.docker.io/v2/").unwrap();
    assert_eq!((u.scheme.as_str(), u.host.as_str(), u.port, u.path.as_str()), ("https", "registry-1.docker.io", 443, "/v2/"));
    let u = Url::parse("http://localhost:5000").unwrap();
    assert_eq!((u.scheme.as_str(), u.host.as_str(), u.port, u.path.as_str()), ("http", "localhost", 5000, "/"));
    assert!(matches!(Url::parse("ftp://x"), Err(ContainerError::Network(_))));
    assert!(matches!(Url::parse("http://h:99999/"), Err(ContainerError::Network(_))));
    assert_eq!(Url::parse("https://h/").unwrap().host_header(), "h");
    assert_eq!(Url::parse("https://h:8443/").unwrap().host_header(), "h:8443");
    assert_eq!(Url::parse("http://h:80/").unwrap().host_header(), "h");
}

#[test]
fn response_parsing_plain_and_chunked() {
    let raw = b"HTTP/1.1 200 OK\r\nContent-Type: Text/Plain\r\nX-A:  b \r\n\r\nhello";
    let r = parse_http_response(raw).unwrap();
    assert_eq!(r.status, 200);
    assert_eq!(r.body, b"hello".to_vec());
    assert_eq!(r.header("content-type").map(|s| s.as_str()), Some("Text/Plain"));
    assert_eq!(r.header("X-A").map(|s| s.as_str()), Some("b"));
    assert_eq!(r.body_string(), "hello");
    let chunked = b"HTTP/1.1 404 Not Found\r\nTransfer-Encoding: chunked\r\n\r\n5\r\nhello\r\n6\r\n world\r\n0\r\n\r\n";
    let r = parse_http_response(chunked).unwrap();
    assert_eq!(r.status, 404);
    assert_eq!(r.body, b"hello world".to_vec());
    assert!(matches!(parse_http_response(b"no blank line"), Err(ContainerError::Network(_))));
    assert!(matches!(parse_http_response(b"HTTP/1.1\r\n\r\n"), Err(ContainerError::Network(_))));
}

#[test]
fn response_body_lossy_text() {
    let raw = b"HTTP/1.1 200 OK\r\n\r\n\xffA";
    let r = parse_http_response(raw).unwrap();
    assert_eq!(r.body_string(), "\u{FFFD}A");
}

#[test]
fn chunked_decoding_edges() {
    assert_eq!(decode_chunked(b"3\r\nabc\r\n0\r\n\r\n").unwrap(), b"abc".to_vec());
    // a chunk longer than the data stops decoding
    assert_eq!(decode_chunked(b"3\r\nabc\r\nff\r\nxy").unwrap(), b"abc".to_vec());
    assert!(matches!(decode_chunked(b"zz\r\nabc\r\n"), Err(ContainerError::Network(_))));
    assert_eq!(decode_chunked(b"").unwrap(), Vec::<u8>::new());
    assert_eq!(chunk_size_of(" 1A "), Some(26));
    assert_eq!(chunk_size_of("g"), None);
    // a chunk that ends exactly at the end of the data would be read past it
    assert!(try_decode_chunked(b"3\r\nabc").is_none());
    assert_eq!(try_decode_chunked(b"1\r\na\r\n0\r\n").unwrap().unwrap(), b"a".to_vec());
    assert!(try_parse_http_response(b"HTTP/1.1 200 OK\r\nTransfer-Encoding: chunked\r\n\r\n3\r\nabc").is_none());
    assert!(try_parse_http_response(b"HTTP/1.1 200 OK\r\n\r\nx").unwrap().is_ok());
}

#[test]
fn head_and_header_block() {
    let (st, h) = parse_head("HTTP/1.1 301 Moved\r\nLocation: /x\r\nLocation: /y").unwrap();
    assert_eq!(st, 301);
    assert_eq!(h.get("location").map(|s| s.as_str()), Some("/y"));
    let b = parse_header_block("HTTP/1.1 200 OK\r\nServer: test\r\nContent-Length : 5\r\n");
    assert_eq!(b.get("server").map(|s| s.as_str()), Some("test"));
    assert_eq!(b.get("content-length").map(|s| s.as_str()), Some("5"));
    assert_eq!(b.len(), 2);
    assert_eq!(find_header_end(b"ab\r\n\r\ncd"), Some(2));
    assert_eq!(find_header_end(b"ab\r\n"), None);
    assert_eq!(find_crlf(b"a\r\nb\r\n", 2), Some(4));
    assert_eq!(find_crlf(b"a\rb", 0), None);
}

#[test]
fn request_and_curl_arguments() {
    let u = Url::parse("http://example.com:8080/a?b").unwrap();
    let hs = vec![("Accept".to_string(), "*/*".to_string())];
    assert_eq!(
        build_request(&u, &hs),
        "GET /a?b HTTP/1.1\r\nHost: example.com:8080\r\nConnection: close\r\nAccept: */*\r\n\r\n"
    );
    let args = curl_args(&Url::parse("https://example.com/x").unwrap(), &hs);
    assert_eq!(args, vec!["-s", "-i", "-L", "-H", "Accept: */*", "https://example.com:443/x"]);
    match curl_outcome(false, b"", b"boom").unwrap() {
        Err(ContainerError::Network(m)) => assert_eq!(m, "curl failed: boom"),
        other => panic!("{:?}", other.map(|r| r.status)),
    }
    assert_eq!(curl_outcome(false, b"HTTP/1.1 204 No Content\r\n\r\n", b"").unwrap().unwrap().status, 204);
}

#[test]
fn redirect_following_strips_authorization_across_hosts() {
    let mut r = Redirects::new("https://a.example/v2/x", 3).unwrap();
    let hs = vec![
        ("Authorization".to_string(), "Bearer t".to_string()),
        ("Accept".to_string(), "x".to_string()),
    ];
    let (u1, h1) = r.next_request(&hs).unwrap();
    assert_eq!(u1, "https://a.example/v2/x");
    assert_eq!(h1.len(), 2);
    assert_eq!(r.on_response(307, Some("https://cdn.example/blob")).unwrap(), true);
    let (u2, h2) = r.next_request(&hs).unwrap();
    assert_eq!(u2, "https://cdn.example/blob");
    assert_eq!(h2, vec![("Accept".to_string(), "x".to_string())]);
    assert_eq!(r.on_response(302, Some("/other")).unwrap(), true);
    assert_eq!(r.current, "https://cdn.example:443/other");
    assert_eq!(r.on_response(200, Some("/ignored")).unwrap(), false);
    assert_eq!(r.remaining, 1);
    assert!(eq_ignore_case("AUTHORIZATION", "authorization"));
    assert!(!eq_ignore_case("auth", "authorization"));
}

#[test]
fn redirect_budget_runs_out() {
    let mut r = Redirects::new("http://h/", 1).unwrap();
    assert!(r.next_request(&Vec::new()).is_ok());
    assert!(r.on_response(301, Some("http://h/2")).unwrap());
    assert!(matches!(r.next_request(&Vec::new()), Err(ContainerError::Network(_))));
}

#[test]
fn redirect_to_another_port_or_scheme_strips_authorization() {
    let hs = vec![("Authorization".to_string(), "Bearer t".to_string())];
    let mut r = Redirects::new("https://a.example/x", 5).unwrap();
    assert!(r.on_response(302, Some("https://a.example:8443/y")).unwrap());
    assert!(r.next_request(&hs).unwrap().1.is_empty());
    assert!(r.on_response(302, Some("http://a.example:443/z")).unwrap());
    assert!(r.next_request(&hs).unwrap().1.is_empty());
    assert!(r.on_response(302, Some("https://a.example:443/w")).unwrap());
    assert_eq!(r.next_request(&hs).unwrap().1, hs);
}
