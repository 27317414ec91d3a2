use module_routes::urlencoding::urlencoding_decode;
use module_routes::{Html, HttpRequest, HttpResponse, IntoRouteResponse, Json, PathParams, Redirect};

// --- HttpResponse encode/decode ---

#[test]
fn response_round_trip_simple() {
    let resp = HttpResponse {
        status: 200,
        headers: vec![("content-type".into(), "text/html".into())],
        body: b"<h1>Hello</h1>".to_vec(),
    };
    let encoded = resp.encode();
    let decoded = HttpResponse::decode(&encoded).unwrap();
    assert_eq!(decoded.status, 200);
    assert_eq!(decoded.headers.len(), 1);
    assert_eq!(decoded.headers[0].0, "content-type");
    assert_eq!(decoded.headers[0].1, "text/html");
    assert_eq!(decoded.body, b"<h1>Hello</h1>");
}

#[test]
fn response_round_trip_no_headers() {
    let resp = HttpResponse::status(404).body_bytes(b"Not found".to_vec());
    let encoded = resp.encode();
    let decoded = HttpResponse::decode(&encoded).unwrap();
    assert_eq!(decoded.status, 404);
    assert_eq!(decoded.headers.len(), 0);
    assert_eq!(decoded.body, b"Not found");
}

#[test]
fn response_round_trip_multiple_headers() {
    let resp = HttpResponse::status(200)
        .header("x-custom", "value1")
        .header("set-cookie", "session=abc");
    let encoded = resp.encode();
    let decoded = HttpResponse::decode(&encoded).unwrap();
    assert_eq!(decoded.headers.len(), 2);
    assert_eq!(decoded.headers[0], ("x-custom".into(), "value1".into()));
    assert_eq!(decoded.headers[1], ("set-cookie".into(), "session=abc".into()));
}

#[test]
fn response_round_trip_empty_body() {
    let resp = HttpResponse::status(303).header("location", "/");
    let encoded = resp.encode();
    let decoded = HttpResponse::decode(&encoded).unwrap();
    assert_eq!(decoded.status, 303);
    assert!(decoded.body.is_empty());
}

#[test]
fn response_decode_too_short() {
    assert!(HttpResponse::decode(&[]).is_none());
    assert!(HttpResponse::decode(&[0, 0]).is_none());
    assert!(HttpResponse::decode(&[0, 0, 0]).is_none());
}

// --- HttpRequest encode/decode ---

#[test]
fn request_round_trip_simple() {
    let req = HttpRequest {
        method: "GET".into(),
        path: "/hello".into(),
        headers: vec![("host".into(), "localhost".into())],
        path_params: PathParams::new(),
        query: String::new(),
        body: Vec::new(),
    };
    let encoded = req.encode();
    let decoded = HttpRequest::decode(&encoded).unwrap();
    assert_eq!(decoded.method, "GET");
    assert_eq!(decoded.path, "/hello");
    assert_eq!(decoded.headers.len(), 1);
    assert_eq!(decoded.headers[0].0, "host");
    assert!(decoded.path_params.is_empty());
    assert!(decoded.query.is_empty());
    assert!(decoded.body.is_empty());
}

#[test]
fn request_round_trip_with_params() {
    let mut params = PathParams::new();
    params.insert("id".into(), "42".into());
    let req = HttpRequest {
        method: "GET".into(),
        path: "/brick/42".into(),
        headers: Vec::new(),
        path_params: params,
        query: "format=json".into(),
        body: Vec::new(),
    };
    let encoded = req.encode();
    let decoded = HttpRequest::decode(&encoded).unwrap();
    assert_eq!(decoded.path_param("id"), Some("42"));
    assert_eq!(decoded.query_param("format"), Some("json".to_string()));
}

#[test]
fn request_round_trip_with_body() {
    let req = HttpRequest {
        method: "POST".into(),
        path: "/brick".into(),
        headers: vec![("content-type".into(), "application/x-www-form-urlencoded".into())],
        path_params: PathParams::new(),
        query: String::new(),
        body: b"x=5&y=3".to_vec(),
    };
    let encoded = req.encode();
    let decoded = HttpRequest::decode(&encoded).unwrap();
    assert_eq!(decoded.form_field("x"), Some("5".to_string()));
    assert_eq!(decoded.form_field("y"), Some("3".to_string()));
    assert_eq!(decoded.form_field("z"), None);
}

// --- HttpRequest convenience methods ---

#[test]
fn request_header_case_insensitive() {
    let req = HttpRequest {
        method: "GET".into(),
        path: "/".into(),
        headers: vec![("Content-Type".into(), "text/html".into())],
        path_params: PathParams::new(),
        query: String::new(),
        body: Vec::new(),
    };
    assert_eq!(req.header("content-type"), Some("text/html"));
    assert_eq!(req.header("CONTENT-TYPE"), Some("text/html"));
    assert_eq!(req.header("x-missing"), None);
}

#[test]
fn request_cookie_parsing() {
    let req = HttpRequest {
        method: "GET".into(),
        path: "/".into(),
        headers: vec![("cookie".into(), "session=abc123; theme=dark".into())],
        path_params: PathParams::new(),
        query: String::new(),
        body: Vec::new(),
    };
    assert_eq!(req.cookie("session"), Some("abc123"));
    assert_eq!(req.cookie("theme"), Some("dark"));
    assert_eq!(req.cookie("missing"), None);
}

#[test]
fn request_query_param_decoding() {
    let req = HttpRequest {
        method: "GET".into(),
        path: "/".into(),
        headers: Vec::new(),
        path_params: PathParams::new(),
        query: "name=hello+world&key=a%20b".into(),
        body: Vec::new(),
    };
    assert_eq!(req.query_param("name"), Some("hello world".to_string()));
    assert_eq!(req.query_param("key"), Some("a b".to_string()));
}

#[test]
fn request_form_field_decoding() {
    let req = HttpRequest {
        method: "POST".into(),
        path: "/".into(),
        headers: Vec::new(),
        path_params: PathParams::new(),
        query: String::new(),
        body: b"name=hello+world&x=10".to_vec(),
    };
    assert_eq!(req.form_field("name"), Some("hello world".to_string()));
    assert_eq!(req.form_field("x"), Some("10".to_string()));
}

#[test]
fn request_json_parsing() {
    let req = HttpRequest {
        method: "POST".into(),
        path: "/".into(),
        headers: Vec::new(),
        path_params: PathParams::new(),
        query: String::new(),
        body: b"{\"x\":5,\"y\":3}".to_vec(),
    };
    let val: serde_json::Value = req.json().unwrap();
    assert_eq!(val["x"], 5);
    assert_eq!(val["y"], 3);
}

// --- IntoRouteResponse implementations ---

#[test]
fn string_into_response() {
    let resp = "Hello".to_string().into_route_response();
    assert_eq!(resp.status, 200);
    assert_eq!(resp.body, b"Hello");
    assert!(resp.headers.iter().any(|(k, v)| k == "content-type" && v.contains("text/html")));
}

#[test]
fn html_into_response() {
    let resp = Html("<h1>Hi</h1>".into()).into_route_response();
    assert_eq!(resp.status, 200);
    assert_eq!(resp.body, b"<h1>Hi</h1>");
}

#[test]
fn json_into_response() {
    let mut object = serde_json::Map::new();
    object.insert("key".into(), serde_json::Value::from("val"));
    let resp = Json(serde_json::Value::Object(object)).into_route_response();
    assert_eq!(resp.status, 200);
    assert!(resp.headers.iter().any(|(k, v)| k == "content-type" && v == "application/json"));
    let parsed: serde_json::Value = serde_json::from_slice(&resp.body).unwrap();
    assert_eq!(parsed["key"], "val");
}

#[test]
fn redirect_into_response() {
    let resp = Redirect::to("/home").into_route_response();
    assert_eq!(resp.status, 303);
    assert!(resp.headers.iter().any(|(k, v)| k == "location" && v == "/home"));
    assert!(resp.body.is_empty());
}

#[test]
fn result_ok_into_response() {
    let result: Result<Html, HttpResponse> = Ok(Html("<p>ok</p>".into()));
    let resp = result.into_route_response();
    assert_eq!(resp.status, 200);
    assert_eq!(resp.body, b"<p>ok</p>");
}

#[test]
fn result_err_into_response() {
    let result: Result<Html, HttpResponse> = Err(HttpResponse::status(404).text("Not found"));
    let resp = result.into_route_response();
    assert_eq!(resp.status, 404);
    assert_eq!(resp.body, b"Not found");
}

// --- HttpResponse builder ---

#[test]
fn response_builder_chain() {
    let resp = HttpResponse::status(418)
        .header("x-teapot", "yes")
        .html("<p>I'm a teapot</p>");
    assert_eq!(resp.status, 418);
    assert_eq!(resp.body, b"<p>I'm a teapot</p>");
    assert!(resp.headers.iter().any(|(k, v)| k == "x-teapot" && v == "yes"));
    assert!(resp.headers.iter().any(|(k, v)| k == "content-type" && v.contains("text/html")));
}

// --- URL decoding ---

#[test]
fn urlencoding_basic() {
    assert_eq!(urlencoding_decode("hello+world"), "hello world");
    assert_eq!(urlencoding_decode("a%20b"), "a b");
    assert_eq!(urlencoding_decode("100%25"), "100%");
    assert_eq!(urlencoding_decode("plain"), "plain");
}

#[test]
fn urlencoding_multibyte_utf8() {
    // e with accent = U+00E9 = 0xC3 0xA9 in UTF-8
    assert_eq!(urlencoding_decode("caf%C3%A9"), "caf\u{00E9}");
    assert_eq!(urlencoding_decode("%C3%A9"), "\u{00E9}");
    // CJK character: U+4E16 = 0xE4 0xB8 0x96
    assert_eq!(urlencoding_decode("%E4%B8%96"), "\u{4E16}");
}

#[test]
fn response_decode_too_many_headers() {
    // Craft bytes with num_headers = 0xFFFFFFFF
    let mut bytes = vec![200u8, 0]; // status 200
    bytes.extend_from_slice(&0xFFFFFFFFu32.to_le_bytes()); // num_headers
    assert!(HttpResponse::decode(&bytes).is_none());
}

#[test]
fn request_decode_too_many_headers() {
    let mut bytes = Vec::new();
    // method
    bytes.extend_from_slice(&3u32.to_le_bytes());
    bytes.extend_from_slice(b"GET");
    // path
    bytes.extend_from_slice(&1u32.to_le_bytes());
    bytes.extend_from_slice(b"/");
    // num_headers = huge
    bytes.extend_from_slice(&0xFFFFFFFFu32.to_le_bytes());
    assert!(HttpRequest::decode(&bytes).is_none());
}
