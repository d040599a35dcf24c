use simple_file_server::request::{HttpRequest, Version};
use simple_file_server::response::{
    dir_response, file_response, four_o_four_response, handle_file_response, join_path, response,
    AcceptRanges, FsObservation, ResourceKind, ResponseStatus,
};

const NOT_FOUND_BODY: &str = "\n                <html>\n                <body>\n                <h1>404 NOT FOUND</h1>\n                </body>\n                </html>";

fn body_text(resp: &simple_file_server::response::HttpResponse) -> String {
    String::from_utf8(resp.response_body.clone()).unwrap()
}

#[test]
fn serializer_exact_bytes() {
    let wire = response(
        Version::V1_1,
        ResponseStatus::OK,
        AcceptRanges::Bytes,
        "text/plain",
        3,
        vec![b'a', b'b', b'c'],
    );
    let expected =
        "HTTP/1.1 200 OK\naccept-ranges: bytes\ncontent-type: text/plain\ncontent-length: 3\r\n\r\nabc";
    assert_eq!(wire, expected.as_bytes());
}

#[test]
fn not_found_response_is_fixed() {
    let resp = four_o_four_response("wwwroot/missing".to_string());
    assert!(matches!(resp.status, ResponseStatus::NotFound));
    assert_eq!(resp.status.code(), 404);
    assert!(matches!(resp.accept_ranges, AcceptRanges::Absent));
    assert_eq!(resp.content_type, "text/html");
    assert_eq!(resp.content_length, NOT_FOUND_BODY.len());
    assert_eq!(resp.current_path, "wwwroot/missing");
    let expected = format!(
        "HTTP/1.1 404 NOT FOUND\naccept-ranges: none\ncontent-type: text/html\ncontent-length: {}\r\n\r\n{}",
        NOT_FOUND_BODY.len(),
        NOT_FOUND_BODY
    );
    assert_eq!(resp.response_body, expected.as_bytes());
}

#[test]
fn missing_path_yields_404_for_any_method() {
    for raw in [
        "GET /nope HTTP/1.1\r\n\r\n",
        "POST /nope HTTP/1.1\r\n\r\n",
        "BREW /nope HTTP/1.1\r\n\r\n",
    ] {
        let req = HttpRequest::new(raw).unwrap();
        let obs = FsObservation { kind: ResourceKind::Missing, root_depth: 0, candidate_depth: 0 };
        let resp = req.response("wwwroot", obs);
        assert_eq!(resp.status.code(), 404);
        assert!(matches!(resp.accept_ranges, AcceptRanges::Absent));
        assert!(body_text(&resp).ends_with(NOT_FOUND_BODY));
    }
}

#[test]
fn file_response_reports_length_and_ranges() {
    let content = vec![7u8, 8, 9, 10, 11];
    let resp = file_response("wwwroot/data.bin".to_string(), content.clone());
    assert_eq!(resp.status.code(), 200);
    assert!(matches!(resp.accept_ranges, AcceptRanges::Bytes));
    assert_eq!(resp.content_length, 5);
    assert!(resp.response_body.ends_with(&content));
}

#[test]
fn png_signature_is_sniffed() {
    let resp = file_response("wwwroot/p.png".to_string(), vec![0x89, 0x50, 0x4E, 0x47]);
    assert_eq!(resp.content_type, "image/png");
    let expected_head =
        "HTTP/1.1 200 OK\naccept-ranges: bytes\ncontent-type: image/png\ncontent-length: 4\r\n\r\n";
    assert!(resp.response_body.starts_with(expected_head.as_bytes()));
    assert!(resp.response_body.ends_with(&[0x89, 0x50, 0x4E, 0x47]));
}

#[test]
fn unknown_bytes_fall_back_to_text_plain() {
    let resp = file_response("wwwroot/notes".to_string(), vec![1, 2, 3]);
    assert_eq!(resp.content_type, "text/plain");
}

#[test]
fn empty_directory_lists_only_the_up_link() {
    let resp = dir_response("wwwroot/sub".to_string(), "sub", Vec::new());
    assert_eq!(resp.status.code(), 200);
    assert_eq!(resp.content_type, "text/html");
    assert!(matches!(resp.accept_ranges, AcceptRanges::Bytes));
    let body = body_text(&resp);
    assert!(body.contains("<h1>Currently in wwwroot/sub</h1>"));
    assert!(body.contains("<a href=\"../\">Go back up a directory</a>"));
    assert!(!body.contains("<a href='"));
}

#[test]
fn directory_entries_become_links() {
    let req = HttpRequest::new("GET / HTTP/1.1\r\nHost: x\r\n\r\n").unwrap();
    let obs = FsObservation {
        kind: ResourceKind::Directory {
            entries: vec!["a.txt".to_string(), "sub".to_string()],
        },
        root_depth: 3,
        candidate_depth: 3,
    };
    let resp = req.response("wwwroot", obs);
    assert_eq!(resp.status.code(), 200);
    let body = body_text(&resp);
    assert!(body.contains("<a href='/a.txt'>a.txt</a></br>"));
    assert!(body.contains("<a href='/sub'>sub</a></br>"));
    assert_eq!(body.matches("<a href='").count(), 2);
}

#[test]
fn entry_names_are_percent_encoded_in_href() {
    let resp = dir_response(
        "wwwroot/s".to_string(),
        "s",
        vec!["a b.txt".to_string()],
    );
    let body = body_text(&resp);
    assert!(body.contains("<a href='s/a%20b.txt'>a b.txt</a></br>"));
}

#[test]
fn resource_is_percent_decoded_into_the_path() {
    let obs = FsObservation { kind: ResourceKind::Missing, root_depth: 0, candidate_depth: 0 };
    let resp = handle_file_response("a%20b.txt", "wwwroot", obs);
    assert_eq!(resp.current_path, "wwwroot/a b.txt");
}

#[test]
fn traversal_to_a_shallower_path_is_clamped_to_root() {
    let obs = FsObservation {
        kind: ResourceKind::File { content: vec![0u8] },
        root_depth: 4,
        candidate_depth: 2,
    };
    let resp = handle_file_response("../../etc/passwd", "wwwroot", obs);
    assert_eq!(resp.current_path, "wwwroot");
}

#[test]
fn deeper_existing_path_is_kept() {
    let obs = FsObservation {
        kind: ResourceKind::File { content: vec![0u8] },
        root_depth: 4,
        candidate_depth: 5,
    };
    let resp = handle_file_response("notes.txt", "wwwroot", obs);
    assert_eq!(resp.current_path, "wwwroot/notes.txt");
}

#[test]
fn existing_non_file_non_directory_yields_404() {
    let obs = FsObservation {
        kind: ResourceKind::OtherExisting,
        root_depth: 4,
        candidate_depth: 5,
    };
    let resp = handle_file_response("dev", "wwwroot", obs);
    assert_eq!(resp.status.code(), 404);
}

#[test]
fn join_path_handles_absolute_and_relative() {
    assert_eq!(join_path("wwwroot", "a/b"), "wwwroot/a/b");
    assert_eq!(join_path("wwwroot/", "a"), "wwwroot/a");
    assert_eq!(join_path("wwwroot", "/abs"), "/abs");
    assert_eq!(join_path("wwwroot", ""), "wwwroot/");
}
