use holycontainer::config::ContainerConfig;
use holycontainer::dashboard::{
    action_result_json, container_json, header_content_length, image_conf_summary, image_json,
    is_end_of_headers, json_list, parse_request_line, pull_result_json, response_head, route, status_text,
    system_json, Route,
};
use holycontainer::webtext::{escape_json, escape_json_string, hex_byte, urldecode};

#[test]
fn request_line_and_headers() {
    assert_eq!(parse_request_line("GET /api/images HTTP/1.1\r\n"), Some(("GET".to_string(), "/api/images".to_string())));
    assert_eq!(parse_request_line("  POST   /x  "), Some(("POST".to_string(), "/x".to_string())));
    assert_eq!(parse_request_line("GET\r\n"), None);
    assert!(is_end_of_headers("\r\n"));
    assert!(!is_end_of_headers("Host: x\r\n"));
    assert_eq!(header_content_length("Content-Length: 42\r\n"), Some(42));
    assert_eq!(header_content_length("CONTENT-LENGTH:7"), Some(7));
    assert_eq!(header_content_length("content-length: abc"), Some(0));
    assert_eq!(header_content_length("Host: x"), None);
}

#[test]
fn routing() {
    assert!(matches!(route("GET", "/"), Route::Index));
    assert!(matches!(route("GET", "/index.html"), Route::Index));
    assert!(matches!(route("GET", "/api/containers"), Route::Containers));
    assert!(matches!(route("GET", "/api/images"), Route::Images));
    assert!(matches!(route("GET", "/api/system"), Route::System));
    match route("POST", "/api/pull/library%2Fubuntu%3A22.04") {
        Route::Pull(i) => assert_eq!(i, "library/ubuntu:22.04"),
        _ => panic!("expected pull"),
    }
    match route("POST", "/api/stop/web") {
        Route::Stop(n) => assert_eq!(n, "web"),
        _ => panic!("expected stop"),
    }
    match route("POST", "/api/rm/db") {
        Route::Rm(n) => assert_eq!(n, "db"),
        _ => panic!("expected rm"),
    }
    assert!(matches!(route("POST", "/api/images"), Route::NotFound));
    assert!(matches!(route("GET", "/api/stop/web"), Route::NotFound));
}

#[test]
fn response_head_text() {
    assert_eq!(status_text(404), "Not Found");
    assert_eq!(status_text(418), "Unknown");
    assert_eq!(
        response_head(200, "application/json", 2),
        "HTTP/1.1 200 OK\r\nContent-Type: application/json\r\nContent-Length: 2\r\nAccess-Control-Allow-Origin: *\r\nConnection: close\r\n\r\n"
    );
}

#[test]
fn api_bodies() {
    let mut c = ContainerConfig::new("web", "/r\"oot");
    c.limits.memory_bytes = 1024;
    c.limits.cpu_percent = 50;
    c.limits.max_pids = 10;
    c.pid = 7;
    assert_eq!(
        container_json(&c),
        "{\"name\":\"web\",\"state\":\"created\",\"rootfs\":\"/r\\\"oot\",\"memory\":1024,\"cpu\":50,\"pids\":10,\"hostname\":\"web\",\"pid\":7}"
    );
    assert_eq!(image_json("a\tb", 2, 300, "/p"), "{\"name\":\"a\\tb\",\"layers\":2,\"size\":300,\"path\":\"/p\"}");
    assert_eq!(json_list(&[]), "[]");
    assert_eq!(json_list(&["1".to_string(), "{}".to_string()]), "[1,{}]");
    assert_eq!(system_json("Linux", false, "/s"), "{\"version\":\"2.0.0\",\"platform\":\"Linux\",\"whp_available\":false,\"state_dir\":\"/s\"}");
    assert_eq!(pull_result_json(&Ok("/x".to_string())), "{\"success\":true,\"rootfs\":\"/x\"}");
    assert_eq!(pull_result_json(&Err("bad\n".to_string())), "{\"success\":false,\"error\":\"bad\\n\"}");
    assert_eq!(action_result_json(&Ok(())), "{\"success\":true}");
    assert_eq!(action_result_json(&Err("e".to_string())), "{\"success\":false,\"error\":\"e\"}");
}

#[test]
fn image_conf_fields() {
    let (n, l) = image_conf_summary("image=alpine:3\nregistry=r\nlayers=4\n");
    assert_eq!(n, "alpine:3");
    assert_eq!(l, 4);
    let (n, l) = image_conf_summary("layers=x\n");
    assert_eq!(n, "");
    assert_eq!(l, 0);
    let (n, l) = image_conf_summary("image=a\nimage=b\nlayers=1\nlayers=2");
    assert_eq!(n, "a");
    assert_eq!(l, 1);
}

#[test]
fn web_text_helpers() {
    assert_eq!(urldecode("a%20b+c%zz"), "a b c\u{0}");
    assert_eq!(urldecode("%4"), "@");
    assert_eq!(hex_byte(b'f'), 15);
    assert_eq!(hex_byte(b'G'), 0);
    assert_eq!(escape_json("a\\b\"c\r"), "a\\\\b\\\"c\\r");
    assert_eq!(escape_json_string("\u{1}x"), "\\u0001x");
}
