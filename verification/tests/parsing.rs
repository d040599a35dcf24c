use simple_file_server::request::{HttpRequest, Method, Resource, Version};

#[test]
fn version_http_1_1() {
    let v = Version::new("GET / HTTP/1.1\r\nHost: x\r\n\r\n").unwrap();
    assert!(matches!(v, Version::V1_1));
}

#[test]
fn version_http_2() {
    let v = Version::new("GET / HTTP/2\r\n\r\n").unwrap();
    assert!(matches!(v, Version::V2_0));
}

#[test]
fn version_http_2_0() {
    let v = Version::new("GET / HTTP/2.0\r\n\r\n").unwrap();
    assert!(matches!(v, Version::V2_0));
}

#[test]
fn version_unknown_token_is_named() {
    let e = Version::new("GET / FTP/9\r\n").unwrap_err();
    assert_eq!(e.message(), "Unknown HTTP version: FTP/9 in GET / FTP/9");
}

#[test]
fn version_without_crlf_fails() {
    let e = Version::new("GET / HTTP/1.1").unwrap_err();
    assert_eq!(e.message(), "parsing version: Invalid http header");
}

#[test]
fn version_empty_line_fails() {
    let e = Version::new("\r\n").unwrap_err();
    assert_eq!(e.message(), "parsing version: Invalid http header");
}

#[test]
fn resource_path_keeps_leading_slash() {
    let r = Resource::new("GET /abc/def HTTP/1.1\r\n").unwrap();
    assert_eq!(r.path, "/abc/def");
}

#[test]
fn resource_empty_path_is_root() {
    let r = Resource::new("GET / HTTP/1.1\r\n").unwrap();
    assert_eq!(r.path, "/");
}

#[test]
fn resource_without_trailing_space_is_root() {
    let r = Resource::new("GET /abc\r\n").unwrap();
    assert_eq!(r.path, "/");
}

#[test]
fn resource_without_slash_defaults_to_root() {
    let r = Resource::new("FOO bar baz\r\n").unwrap();
    assert_eq!(r.path, "/");
}

#[test]
fn resource_without_crlf_fails() {
    let e = Resource::new("GET /abc HTTP/1.1").unwrap_err();
    assert_eq!(e.message(), "parsing route: Invalid http header");
}

#[test]
fn method_get_and_post() {
    let g = Method::new("GET / HTTP/1.1\r\n").unwrap();
    assert!(matches!(g, Method::Get));
    let p = Method::new("POST / HTTP/1.1\r\n").unwrap();
    assert!(matches!(p, Method::Post));
}

#[test]
fn method_unknown_token_is_uninitialized() {
    let m = Method::new("BREW / HTTP/1.1\r\n").unwrap();
    assert!(matches!(m, Method::Uninitialized));
}

#[test]
fn method_on_spaceless_line_is_still_recognized() {
    let g = Method::new("GET\r\n").unwrap();
    assert!(matches!(g, Method::Get));
    let u = Method::new("FOO\r\n").unwrap();
    assert!(matches!(u, Method::Uninitialized));
}

#[test]
fn method_without_crlf_fails() {
    let e = Method::new("GET /").unwrap_err();
    assert_eq!(e.message(), "parsing method: Invalid http header");
}

#[test]
fn request_without_line_boundary_fails() {
    let e = HttpRequest::new("GET /").unwrap_err();
    assert_eq!(e.message(), "parsing method: Invalid http header");
}

#[test]
fn request_with_uninitialized_method_still_parses() {
    let req = HttpRequest::new("BREW / HTTP/1.1\r\n\r\n").unwrap();
    assert!(matches!(req.method, Method::Uninitialized));
    assert!(matches!(req.version, Version::V1_1));
}

#[test]
fn request_with_spaceless_first_line_parses() {
    let req = HttpRequest::new("HTTP/1.1\r\n\r\n").unwrap();
    assert!(matches!(req.method, Method::Uninitialized));
    assert_eq!(req.resource.path, "/");
    assert!(matches!(req.version, Version::V1_1));
}

#[test]
fn request_version_error_names_token() {
    let e = HttpRequest::new("GET / FTP/1\r\n\r\n").unwrap_err();
    assert_eq!(e.message(), "Unknown HTTP version: FTP/1 in GET / FTP/1");
}

#[test]
fn duplicate_header_last_wins() {
    let req = HttpRequest::new("GET / HTTP/1.1\r\nA: 1\r\nA: 2\r\n\r\n").unwrap();
    assert_eq!(req.headers.get("A").unwrap(), "2");
}

#[test]
fn header_order_does_not_matter() {
    let a = HttpRequest::new("GET / HTTP/1.1\r\nX: 1\r\nY: 2\r\n\r\n").unwrap();
    let b = HttpRequest::new("GET / HTTP/1.1\r\nY: 2\r\nX: 1\r\n\r\n").unwrap();
    assert_eq!(a.headers.get("X").unwrap(), b.headers.get("X").unwrap());
    assert_eq!(a.headers.get("Y").unwrap(), b.headers.get("Y").unwrap());
    assert_eq!(a.headers.get("X").unwrap(), "1");
    assert_eq!(a.headers.get("Y").unwrap(), "2");
}

#[test]
fn header_keys_and_values_are_trimmed() {
    let req = HttpRequest::new("GET / HTTP/1.1\r\n  Host :  here \r\n\r\n").unwrap();
    assert_eq!(req.headers.get("Host").unwrap(), "here");
}

#[test]
fn header_line_without_colon_is_skipped() {
    let req = HttpRequest::new("GET / HTTP/1.1\r\nnocolon\r\nA: 1\r\n\r\n").unwrap();
    assert!(req.headers.get("nocolon").is_none());
    assert_eq!(req.headers.get("A").unwrap(), "1");
}

#[test]
fn headers_stop_at_blank_line() {
    let req = HttpRequest::new("GET / HTTP/1.1\r\nA: 1\r\n\r\nB: 2\r\n\r\n").unwrap();
    assert_eq!(req.headers.get("A").unwrap(), "1");
    assert!(req.headers.get("B").is_none());
}

#[test]
fn post_body_is_extracted() {
    let req = HttpRequest::new("POST /upload HTTP/1.1\r\nContent-Length: 5\r\n\r\nhello").unwrap();
    assert!(matches!(req.method, Method::Post));
    assert_eq!(req.resource.path, "/upload");
    assert_eq!(req.request_body, "hello");
}

#[test]
fn post_without_blank_line_has_empty_body() {
    let req = HttpRequest::new("POST /upload HTTP/1.1\r\n").unwrap();
    assert_eq!(req.request_body, "");
}

#[test]
fn get_body_is_always_empty() {
    let req = HttpRequest::new("GET /x HTTP/1.1\r\n\r\ntrailing bytes").unwrap();
    assert_eq!(req.request_body, "");
}
