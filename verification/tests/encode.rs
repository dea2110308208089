use http_wire::header::Header;
use http_wire::request::{Method, Request, RequestBuilder};
use http_wire::target::Target;

fn target(host: Option<&str>, path: &str, query: Option<&str>) -> Target {
    Target {
        host: host.map(String::from),
        path: String::from(path),
        query: query.map(String::from),
    }
}

fn encode(request: &Request) -> Vec<u8> {
    let mut out = Vec::new();
    request.write(&mut out);
    out
}

#[test]
fn method_tokens_are_ascii_names() {
    assert_eq!(Method::Get.as_bytes(), b"GET");
    assert_eq!(Method::Post.as_bytes(), b"POST");
}

#[test]
fn get_without_body_ends_at_last_header() {
    let request = Request::get(target(Some("example.com"), "/index.html", None))
        .header("accept", "text/html")
        .header("x-trace", "abc")
        .build();
    let bytes = encode(&request);
    assert_eq!(
        bytes,
        b"GET /index.html HTTP/1.1\r\nhost: example.com\r\naccept: text/html\r\nx-trace: abc\r\n"
            .to_vec()
    );
    assert!(bytes.ends_with(b"x-trace: abc\r\n"));
    assert!(!bytes.ends_with(b"\r\n\r\n"));
}

#[test]
fn get_without_host_has_no_host_header() {
    let request = Request::get(target(None, "/run/status", None)).build();
    assert_eq!(encode(&request), b"GET /run/status HTTP/1.1\r\n".to_vec());
}

#[test]
fn host_header_comes_first() {
    let request = RequestBuilder::new(Method::Post, target(Some("api.test"), "/", None))
        .header("a", "1")
        .build();
    assert_eq!(encode(&request), b"POST / HTTP/1.1\r\nhost: api.test\r\na: 1\r\n".to_vec());
}

#[test]
fn query_follows_path_without_separator() {
    let plain = Request::get(target(None, "/search", Some("q=rust"))).build();
    assert_eq!(encode(&plain), b"GET /searchq=rust HTTP/1.1\r\n".to_vec());

    let marked = Request::get(target(None, "/search", Some("?q=rust"))).build();
    assert_eq!(encode(&marked), b"GET /search?q=rust HTTP/1.1\r\n".to_vec());
}

#[test]
fn headers_keep_insertion_order_and_duplicates() {
    let request = Request::get(target(None, "/", None))
        .header("b", "2")
        .header("a", "1")
        .header("b", "3")
        .header("Accept", "x")
        .build();
    assert_eq!(
        encode(&request),
        b"GET / HTTP/1.1\r\nb: 2\r\na: 1\r\nb: 3\r\nAccept: x\r\n".to_vec()
    );
}

#[test]
fn header_text_is_written_unchanged() {
    let request = Request::get(target(None, "/", None))
        .header("x-note", "caf\u{e9} \u{1f600}")
        .header("", "")
        .header("x\r\ny", "z: w")
        .build();
    let mut expected = b"GET / HTTP/1.1\r\nx-note: caf".to_vec();
    expected.extend_from_slice("\u{e9} \u{1f600}".as_bytes());
    expected.extend_from_slice(b"\r\n: \r\nx\r\ny: z: w\r\n");
    assert_eq!(encode(&request), expected);
}

#[test]
fn post_with_json_body_declares_its_length() {
    let mut document = std::collections::BTreeMap::new();
    document.insert("name", "widget");
    let payload = serde_json::to_vec(&document).unwrap();
    assert_eq!(payload, b"{\"name\":\"widget\"}".to_vec());

    let request = Request::post(target(Some("example.com"), "/items", None))
        .json(payload.clone())
        .build();
    let bytes = encode(&request);
    assert_eq!(
        bytes,
        b"POST /items HTTP/1.1\r\nhost: example.com\r\ncontent-length: 17\r\ncontent-type: application/json\r\n\r\n{\"name\":\"widget\"}"
            .to_vec()
    );
    let body_start = bytes.len() - payload.len();
    assert_eq!(&bytes[body_start..], payload.as_slice());
    assert_eq!(&bytes[body_start - 4..body_start], b"\r\n\r\n");
    assert_ne!(&bytes[body_start - 6..body_start - 4], b"\r\n");
}

#[test]
fn content_length_is_written_in_decimal() {
    for (len, text) in [(0usize, "0"), (7, "7"), (10, "10"), (99, "99"), (100, "100"), (12345, "12345")] {
        let request = Request::post(target(None, "/", None)).json(vec![b'x'; len]).build();
        let mut expected = b"POST / HTTP/1.1\r\ncontent-length: ".to_vec();
        expected.extend_from_slice(text.as_bytes());
        expected.extend_from_slice(b"\r\ncontent-type: application/json\r\n\r\n");
        expected.extend_from_slice(&vec![b'x'; len]);
        assert_eq!(encode(&request), expected);
    }
}

#[test]
fn empty_body_still_gets_blank_line() {
    let request = Request::post(target(None, "/", None)).json(Vec::new()).build();
    assert_eq!(
        encode(&request),
        b"POST / HTTP/1.1\r\ncontent-length: 0\r\ncontent-type: application/json\r\n\r\n".to_vec()
    );
}

#[test]
fn second_payload_replaces_body_and_adds_headers() {
    let request = Request::post(target(None, "/", None))
        .json(b"[1]".to_vec())
        .json(b"[1,2]".to_vec())
        .build();
    assert_eq!(
        encode(&request),
        b"POST / HTTP/1.1\r\ncontent-length: 3\r\ncontent-type: application/json\r\ncontent-length: 5\r\ncontent-type: application/json\r\n\r\n[1,2]"
            .to_vec()
    );
}

#[test]
fn write_appends_to_what_the_buffer_holds() {
    let request = Request::get(target(None, "/", None)).build();
    let mut out = b"seen ".to_vec();
    request.write(&mut out);
    request.write(&mut out);
    assert_eq!(out, b"seen GET / HTTP/1.1\r\nGET / HTTP/1.1\r\n".to_vec());
}

#[test]
fn header_values_compare_by_their_texts() {
    let a = Header { name: String::from("a"), value: String::from("1") };
    let b = Header { name: String::from("a"), value: String::from("1") };
    let c = Header { name: String::from("a"), value: String::from("2") };
    assert_eq!(a, b);
    assert_ne!(a, c);
}
