use axum::http::{HeaderMap, HeaderValue};
use module_routes::host::{
    decode_route_response, encode_request, encode_request_items, extract_path_params,
};
use module_routes::{HttpRequest, HttpResponse, PathParams};

#[test]
fn patterns_capture_the_parts_in_their_place() {
    let params = extract_path_params("/brick/:id", "/brick/42");
    assert_eq!(params.len(), 1);
    assert_eq!(params.get("id"), Some("42"));

    let params = extract_path_params("/a/:x/b/:y", "/a/1/b/2");
    assert_eq!(params.len(), 2);
    assert_eq!(params.get("x"), Some("1"));
    assert_eq!(params.get("y"), Some("2"));
}

#[test]
fn patterns_and_paths_may_differ_in_length() {
    assert!(extract_path_params("/a", "/a/b/c").is_empty());
    assert_eq!(extract_path_params("/:a/:b", "/1").entries().len(), 1);
    assert_eq!(extract_path_params("/:a", "/1/2").get("a"), Some("1"));
    assert_eq!(extract_path_params(":a", "/").get("a"), Some(""));
    assert_eq!(extract_path_params("/x/:id", "/other/42").get("id"), Some("42"));
    assert!(extract_path_params("", "").is_empty());
}

#[test]
fn the_last_part_of_a_name_counts() {
    let params = extract_path_params("/:id/:id/:", "/1/2/3");
    assert_eq!(params.len(), 2);
    assert_eq!(params.get("id"), Some("2"));
    assert_eq!(params.get(""), Some("3"));
}

#[test]
fn the_module_reads_the_request_that_the_host_wrote() {
    let mut headers = HeaderMap::new();
    headers.insert("Host", HeaderValue::from_static("localhost"));
    headers.append("accept", HeaderValue::from_static("text/html"));
    headers.append("accept", HeaderValue::from_static("*/*"));
    headers.insert("x-raw", HeaderValue::from_bytes(b"a\xFFb").unwrap());
    let params = extract_path_params("/brick/:id", "/brick/42");
    let bytes = encode_request("POST", "/brick/42", &headers, &params, Some("a=1"), b"body");
    let request = HttpRequest::decode(&bytes).unwrap();
    assert_eq!(request.method, "POST");
    assert_eq!(request.path, "/brick/42");
    assert_eq!(request.headers.len(), 4);
    assert_eq!(request.header("host"), Some("localhost"));
    assert_eq!(request.header("x-raw"), Some("a\u{FFFD}b"));
    let accepted: Vec<&str> =
        request.headers.iter().filter(|(k, _)| k == "accept").map(|(_, v)| v.as_str()).collect();
    assert_eq!(accepted, vec!["text/html", "*/*"]);
    assert_eq!(request.path_param("id"), Some("42"));
    assert_eq!(request.query_param("a"), Some("1".to_string()));
    assert_eq!(request.body, b"body".to_vec());
}

#[test]
fn host_requests_have_the_documented_layout() {
    let mut headers = HeaderMap::new();
    headers.insert("K", HeaderValue::from_static("v"));
    let mut params = PathParams::new();
    params.insert("p".to_string(), "w".to_string());
    let expected = b"\x03\0\0\0GET\x01\0\0\0/\x01\0\0\0\x01\0\0\0k\x01\0\0\0v\
\x01\0\0\0\x01\0\0\0p\x01\0\0\0w\0\0\0\0xyz"
        .to_vec();
    assert_eq!(encode_request("GET", "/", &headers, &params, None, b"xyz"), expected);
    assert_eq!(encode_request("GET", "/", &headers, &params, Some(""), b"xyz"), expected);
    let items: Vec<(String, Vec<u8>)> = vec![("k".to_string(), b"v".to_vec())];
    assert_eq!(encode_request_items("GET", "/", &items, &params, None, b"xyz"), expected);
}

#[test]
fn a_response_without_content_type_is_raw_bytes() {
    let bytes = HttpResponse::status(404).header("x-a", "1").body_bytes(b"gone".to_vec()).encode();
    let sent = decode_route_response(&bytes).unwrap_or_else(|_| panic!());
    assert_eq!(sent.status, 404);
    assert_eq!(sent.headers.len(), 2);
    assert_eq!(sent.headers.get("content-type").unwrap(), "application/octet-stream");
    assert_eq!(sent.headers.get("x-a").unwrap(), "1");
    assert_eq!(sent.body, b"gone".to_vec());
}

#[test]
fn the_module_sets_the_content_type() {
    let bytes = HttpResponse::status(200).html("<p>").encode();
    let sent = decode_route_response(&bytes).unwrap_or_else(|_| panic!());
    assert_eq!(sent.headers.len(), 1);
    assert_eq!(sent.headers.get("content-type").unwrap(), "text/html; charset=utf-8");
}

#[test]
fn the_last_header_of_a_name_is_sent() {
    let bytes = HttpResponse::status(200)
        .header("Set-Cookie", "a=1")
        .header("set-cookie", "b=2")
        .header("X-Unicode", "é")
        .encode();
    let sent = decode_route_response(&bytes).unwrap_or_else(|_| panic!());
    assert_eq!(sent.headers.len(), 3);
    assert_eq!(sent.headers.get_all("set-cookie").iter().count(), 1);
    assert_eq!(sent.headers.get("SET-COOKIE").unwrap(), "b=2");
    assert_eq!(sent.headers.get("x-unicode").unwrap().as_bytes(), "é".as_bytes());
}

#[test]
fn headers_that_cannot_be_sent_are_left_out() {
    let long = "a".repeat(0x1_0000);
    let bytes = HttpResponse::status(200)
        .header("", "1")
        .header("bad name", "2")
        .header("é", "3")
        .header("quote\"", "4")
        .header(long.as_str(), "5")
        .header("x-line", "a\nb")
        .header("x-del", "\u{7F}")
        .header("x-tab", "a\tb")
        .header("!#$%&'*+-.^_`|~09AZaz", "6")
        .header(&long[1..], "7")
        .header("x-empty", "")
        .encode();
    let sent = decode_route_response(&bytes).unwrap_or_else(|_| panic!());
    assert_eq!(sent.headers.len(), 5);
    assert_eq!(sent.headers.get("x-tab").unwrap(), "a\tb");
    assert_eq!(sent.headers.get("!#$%&'*+-.^_`|~09azaz").unwrap(), "6");
    assert_eq!(sent.headers.get(&long[1..]).unwrap(), "7");
    assert_eq!(sent.headers.get("x-empty").unwrap(), "");
    assert!(sent.headers.contains_key("content-type"));
}

#[test]
fn every_single_byte_name_and_value_is_judged_alike() {
    for b in 0..128u8 {
        let text = (b as char).to_string();
        let bytes = HttpResponse::status(200)
            .header(text.as_str(), "v")
            .header("x-value", text.as_str())
            .encode();
        let sent = decode_route_response(&bytes).unwrap_or_else(|_| panic!());
        let token = b.is_ascii_alphanumeric() || b"!#$%&'*+-.^_`|~".contains(&b);
        assert_eq!(sent.headers.contains_key(text.as_str()), token, "{}", b);
        let visible = b == 9 || (b >= 32 && b != 127);
        assert_eq!(sent.headers.contains_key("x-value"), visible, "{}", b);
    }
}

#[test]
fn a_code_that_is_no_status_is_sent_as_500() {
    for (code, expected) in
        [(0u16, 500u16), (99, 500), (100, 100), (204, 204), (999, 999), (1000, 500), (65535, 500)]
    {
        let bytes = HttpResponse::status(code).encode();
        let sent = decode_route_response(&bytes).unwrap_or_else(|_| panic!());
        assert_eq!(sent.status, expected, "{}", code);
    }
}

#[test]
fn a_malformed_response_is_answered_with_500() {
    for bytes in [
        b"".to_vec(),
        b"\xC8\0\0\0\0".to_vec(),
        b"\xC8\0\x01\0\0\0".to_vec(),
        b"\xC8\0\x01\0\0\0\x05\0\0\0abc".to_vec(),
        b"\xC8\0\x01\x04\0\0".to_vec(),
    ] {
        assert_eq!(decode_route_response(&bytes).err(), Some(500));
    }
}

#[test]
fn the_largest_set_of_headers_is_sent() {
    let mut response = HttpResponse::status(200);
    for i in 0..1024u32 {
        response = response.header(format!("h{}", i), "v");
    }
    let sent = decode_route_response(&response.encode()).unwrap_or_else(|_| panic!());
    assert_eq!(sent.headers.len(), 1025);
    assert_eq!(
        decode_route_response(&response.header("one", "more").encode()).err(),
        Some(500)
    );
}
