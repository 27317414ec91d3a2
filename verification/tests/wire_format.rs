use module_routes::wire::{read_length_prefixed_str, read_u32, write_length_prefixed, MAX_WIRE_ITEMS};
use module_routes::{HttpRequest, HttpResponse, PathParams};

fn request() -> HttpRequest {
    let mut path_params = PathParams::new();
    path_params.insert("id".to_string(), "7".to_string());
    HttpRequest {
        method: "PUT".to_string(),
        path: "/a".to_string(),
        headers: vec![("h".to_string(), "é".to_string())],
        path_params,
        query: "q=1".to_string(),
        body: vec![0, 255],
    }
}

fn request_bytes() -> Vec<u8> {
    let mut bytes: Vec<u8> = Vec::new();
    bytes.extend_from_slice(b"\x03\0\0\0PUT");
    bytes.extend_from_slice(b"\x02\0\0\0/a");
    bytes.extend_from_slice(b"\x01\0\0\0\x01\0\0\0h\x02\0\0\0\xC3\xA9");
    bytes.extend_from_slice(b"\x01\0\0\0\x02\0\0\0id\x01\0\0\x007");
    bytes.extend_from_slice(b"\x03\0\0\0q=1");
    bytes.extend_from_slice(b"\0\xFF");
    bytes
}

#[test]
fn request_has_the_documented_layout() {
    assert_eq!(request().encode(), request_bytes());
}

#[test]
fn request_survives_the_boundary() {
    let decoded = HttpRequest::decode(&request().encode()).unwrap();
    assert_eq!(decoded.method, "PUT");
    assert_eq!(decoded.path, "/a");
    assert_eq!(decoded.headers, vec![("h".to_string(), "é".to_string())]);
    assert_eq!(decoded.path_param("id"), Some("7"));
    assert_eq!(decoded.path_params.len(), 1);
    assert_eq!(decoded.query, "q=1");
    assert_eq!(decoded.body, vec![0, 255]);
}

#[test]
fn decoded_request_encodes_to_the_same_bytes() {
    let bytes = request_bytes();
    assert_eq!(HttpRequest::decode(&bytes).unwrap().encode(), bytes);
}

#[test]
fn decoded_response_encodes_to_the_same_bytes() {
    let bytes = b"\x2C\x01\x01\0\0\0\x01\0\0\0k\x01\0\0\0vrest".to_vec();
    let decoded = HttpResponse::decode(&bytes).unwrap();
    assert_eq!(decoded.status, 300);
    assert_eq!(decoded.encode(), bytes);
}

#[test]
fn response_has_the_documented_layout() {
    let response = HttpResponse::status(404).header("k", "vv").body_bytes(b"body".to_vec());
    assert_eq!(
        response.encode(),
        b"\x94\x01\x01\0\0\0\x01\0\0\0k\x02\0\0\0vvbody".to_vec()
    );
}

#[test]
fn every_cut_before_the_body_is_refused() {
    let bytes = request_bytes();
    let head: usize = bytes.len() - 2;
    for len in 0..head {
        assert!(HttpRequest::decode(&bytes[..len]).is_none(), "{}", len);
    }
    assert!(HttpRequest::decode(&bytes[..head]).unwrap().body.is_empty());

    let response = HttpResponse::status(200).header("a", "b").encode();
    for len in 0..response.len() {
        assert!(HttpResponse::decode(&response[..len]).is_none(), "{}", len);
    }
    assert!(HttpResponse::decode(&response).is_some());
}

#[test]
fn more_bytes_go_to_the_body() {
    let mut bytes = request_bytes();
    bytes.extend_from_slice(b"more");
    assert_eq!(HttpRequest::decode(&bytes).unwrap().body, b"\0\xFFmore".to_vec());

    let mut response = HttpResponse::status(200).body_bytes(b"one".to_vec()).encode();
    response.extend_from_slice(b"two");
    assert_eq!(HttpResponse::decode(&response).unwrap().body, b"onetwo".to_vec());
}

#[test]
fn the_limit_on_headers_is_inclusive() {
    let mut response = HttpResponse::status(200);
    for _ in 0..MAX_WIRE_ITEMS {
        response = response.header("k", "v");
    }
    let decoded = HttpResponse::decode(&response.encode()).unwrap();
    assert_eq!(decoded.headers.len(), 1024);
    assert!(HttpResponse::decode(&response.header("k", "v").encode()).is_none());
}

#[test]
fn the_limit_on_path_params_is_inclusive() {
    let mut req = request();
    for i in 1..1024u32 {
        req.path_params.insert(format!("p{}", i), String::new());
    }
    assert_eq!(HttpRequest::decode(&req.encode()).unwrap().path_params.len(), 1024);
    req.path_params.insert("one more".to_string(), String::new());
    assert!(HttpRequest::decode(&req.encode()).is_none());
}

#[test]
fn the_last_of_two_params_counts() {
    let mut bytes: Vec<u8> = Vec::new();
    bytes.extend_from_slice(b"\x03\0\0\0GET\x01\0\0\0/\0\0\0\0");
    bytes.extend_from_slice(b"\x03\0\0\0\x01\0\0\0a\x01\0\0\x001");
    bytes.extend_from_slice(b"\x01\0\0\0b\x01\0\0\x002");
    bytes.extend_from_slice(b"\x01\0\0\0a\x01\0\0\x003");
    bytes.extend_from_slice(b"\0\0\0\0");
    let decoded = HttpRequest::decode(&bytes).unwrap();
    assert_eq!(decoded.path_params.len(), 2);
    assert_eq!(decoded.path_param("a"), Some("3"));
    assert_eq!(decoded.path_param("b"), Some("2"));
    assert_eq!(decoded.path_param("c"), None);
}

#[test]
fn invalid_utf8_is_replaced() {
    let decoded = HttpResponse::decode(b"\xC8\0\x01\0\0\0\x01\0\0\0k\x03\0\0\0a\xFFb").unwrap();
    assert_eq!(decoded.headers[0].1, "a\u{FFFD}b");
}

#[test]
fn a_length_beyond_the_input_is_refused() {
    assert!(HttpRequest::decode(b"\xFF\xFF\xFF\xFFGET").is_none());
    assert!(HttpResponse::decode(b"\xC8\0\x01\0\0\0\xFF\xFF\xFF\xFF").is_none());
}

#[test]
fn numbers_are_read_in_place() {
    let bytes: Vec<u8> = vec![9, 0x78, 0x56, 0x34, 0x12, 7];
    let mut pos: usize = 1;
    assert_eq!(read_u32(&bytes, &mut pos), Some(0x1234_5678));
    assert_eq!(pos, 5);
    assert_eq!(read_u32(&bytes, &mut pos), None);
    assert_eq!(pos, 5);
    let mut far: usize = 100;
    assert_eq!(read_u32(&bytes, &mut far), None);
    assert_eq!(far, 100);
}

#[test]
fn blocks_are_written_and_read_in_place() {
    let mut buf: Vec<u8> = vec![1];
    write_length_prefixed(&mut buf, "hé".as_bytes());
    assert_eq!(buf, b"\x01\x03\0\0\0h\xC3\xA9".to_vec());
    let mut pos: usize = 1;
    assert_eq!(read_length_prefixed_str(&buf, &mut pos), Some("hé".to_string()));
    assert_eq!(pos, 8);
    assert_eq!(read_length_prefixed_str(&buf, &mut pos), None);
    assert_eq!(pos, 8);
    // A text that is cut off leaves the position behind its length.
    let mut cut: usize = 1;
    assert_eq!(read_length_prefixed_str(&buf[..7], &mut cut), None);
    assert_eq!(cut, 5);
}

#[test]
fn clones_hold_the_same() {
    let req = request();
    assert_eq!(req.clone().encode(), req.encode());
    let response = HttpResponse::status(201).text("done");
    assert_eq!(response.clone().encode(), response.encode());
}

#[test]
fn params_keep_one_value_for_each_name() {
    let mut params = PathParams::new();
    assert!(params.is_empty());
    params.insert("a".to_string(), "1".to_string());
    params.insert("b".to_string(), "2".to_string());
    params.insert("a".to_string(), "3".to_string());
    assert!(!params.is_empty());
    assert_eq!(params.len(), 2);
    assert_eq!(params.get("a"), Some("3"));
    assert_eq!(params.get("b"), Some("2"));
    assert_eq!(params.get(""), None);
    assert_eq!(
        params.entries(),
        &vec![("a".to_string(), "3".to_string()), ("b".to_string(), "2".to_string())]
    );
    let same = PathParams::from_pairs(vec![
        ("a".to_string(), "1".to_string()),
        ("b".to_string(), "2".to_string()),
        ("a".to_string(), "3".to_string()),
    ]);
    assert_eq!(same.entries(), params.entries());
}

#[test]
fn claims_beyond_the_limit_are_refused() {
    assert!(HttpResponse::decode(b"\xC8\0\x01\x04\0\0rest").is_none());
    assert!(HttpRequest::decode(b"\x01\0\0\0G\x01\0\0\0/\x01\x04\0\0rest").is_none());
    assert!(HttpRequest::decode(b"\x01\0\0\0G\x01\0\0\0/\0\0\0\0\x01\x04\0\0rest").is_none());
    assert!(HttpRequest::decode(b"\x01\0\0\0G\x01\0\0\0/\0\0\0\0\0\0\0\0\0\0\0\0rest").is_some());
}

#[test]
fn repairs_show_in_every_part_of_a_request() {
    let base = request_bytes();
    let clean = HttpRequest::decode(&base).unwrap();
    assert_eq!(clean.encode(), base);
    // A byte of the method, the path, the header key, the header value, the parameter's
    // name, its value and the query in turn.
    for at in [4usize, 11, 21, 26, 36, 42, 47] {
        let mut bytes = base.clone();
        bytes[at] = 0xFF;
        let decoded = HttpRequest::decode(&bytes).unwrap();
        let mut texts: Vec<String> = vec![decoded.method, decoded.path, decoded.query];
        for (key, value) in decoded.headers.iter().chain(decoded.path_params.entries()) {
            texts.push(key.clone());
            texts.push(value.clone());
        }
        let marked: usize = texts.iter().filter(|t| t.contains('\u{FFFD}')).count();
        assert_eq!(marked, 1, "{}", at);
    }
}

#[test]
fn a_response_without_repairs_encodes_to_the_same_bytes() {
    let bytes = b"\xC8\0\x01\0\0\0\x01\0\0\0k\x02\0\0\0\xC3\xA9\xFF".to_vec();
    let decoded = HttpResponse::decode(&bytes).unwrap();
    assert!(!decoded.headers[0].1.contains('\u{FFFD}'));
    assert_eq!(decoded.encode(), bytes);

    let repaired = b"\xC8\0\x01\0\0\0\x01\0\0\0k\x02\0\0\0\xC3\xC3".to_vec();
    let decoded = HttpResponse::decode(&repaired).unwrap();
    assert!(decoded.headers[0].1.contains('\u{FFFD}'));
    assert_ne!(decoded.encode(), repaired);
}
