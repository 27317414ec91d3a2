use module_routes::json::{document_response, json_response};
use module_routes::{Html, HttpRequest, HttpResponse, IntoRouteResponse, Json, PathParams, Redirect};
use serde_json::Value;

fn request_with_body(body: &[u8]) -> HttpRequest {
    HttpRequest {
        method: "POST".to_string(),
        path: "/".to_string(),
        headers: vec![],
        path_params: PathParams::new(),
        query: String::new(),
        body: body.to_vec(),
    }
}

fn pair(key: &str, value: &str) -> (String, String) {
    (key.to_string(), value.to_string())
}

#[test]
fn json_bodies_are_parsed() {
    let document = request_with_body(b" [1, \"two\", null] ").json().unwrap();
    assert_eq!(
        document,
        Value::Array(vec![Value::from(1), Value::from("two"), Value::Null])
    );
}

#[test]
fn what_is_not_json_is_refused() {
    assert!(request_with_body(b"").json().is_err());
    assert!(request_with_body(b"{\"a\":").json().is_err());
    assert!(request_with_body(b"1 2").json().is_err());
    assert!(request_with_body(b"\"\xFF\"").json().is_err());
}

#[test]
fn documents_are_written() {
    let document = Value::Array(vec![Value::from(1), Value::from("é"), Value::Null]);
    let response = Json(document.clone()).into_route_response();
    assert_eq!(response.status, 200);
    assert_eq!(response.headers, vec![pair("content-type", "application/json")]);
    assert_eq!(response.body, "[1,\"é\",null]".as_bytes().to_vec());
    assert_eq!(document_response(&document).encode(), response.encode());
}

#[test]
fn a_failed_encoding_is_an_error_response() {
    let response = json_response(Err("bad key".to_string()));
    assert_eq!(response.status, 500);
    assert_eq!(response.headers, vec![pair("content-type", "application/json")]);
    assert_eq!(
        String::from_utf8(response.body).unwrap(),
        "{\"error\":\"serialization failed: bad key\"}"
    );
    let response = json_response(Ok(b"{}".to_vec()));
    assert_eq!(response.status, 200);
    assert_eq!(response.body, b"{}".to_vec());
}

#[test]
fn text_is_a_page() {
    let page = Html("é".to_string()).into_route_response();
    assert_eq!(page.status, 200);
    assert_eq!(page.headers, vec![pair("content-type", "text/html; charset=utf-8")]);
    assert_eq!(page.body, "é".as_bytes().to_vec());
    assert_eq!("é".into_route_response().encode(), page.encode());
    assert_eq!("é".to_string().into_route_response().encode(), page.encode());
}

#[test]
fn a_redirect_has_no_body() {
    let response = Redirect::to("/home".to_string()).into_route_response();
    assert_eq!(response.status, 303);
    assert_eq!(response.headers, vec![pair("location", "/home")]);
    assert!(response.body.is_empty());
}

#[test]
fn results_give_the_response_of_what_they_hold() {
    let good: Result<Html, HttpResponse> = Ok(Html("x".to_string()));
    assert_eq!(good.into_route_response().encode(), "x".into_route_response().encode());
    let bad: Result<Html, HttpResponse> = Err(HttpResponse::status(400).text("no"));
    assert_eq!(
        bad.into_route_response().encode(),
        HttpResponse::status(400).text("no").encode()
    );
}

#[test]
fn builders_add_content_types_and_replace_bodies() {
    let response = HttpResponse::status(200).html("a").text("b").json("{}");
    assert_eq!(
        response.headers,
        vec![
            pair("content-type", "text/html; charset=utf-8"),
            pair("content-type", "text/plain; charset=utf-8"),
            pair("content-type", "application/json"),
        ]
    );
    assert_eq!(response.body, b"{}".to_vec());
    let raw = response.body_bytes(vec![0, 1]);
    assert_eq!(raw.headers.len(), 3);
    assert_eq!(raw.body, vec![0, 1]);
}

#[test]
fn the_error_of_a_body_is_the_same_each_time() {
    let request = request_with_body(b"{\"a\":\n 1,}");
    let one = request.json().unwrap_err();
    let other = request.json().unwrap_err();
    assert!(one.is_syntax());
    assert_eq!((one.line(), one.column()), (2, 4));
    assert_eq!(one.to_string(), other.to_string());
    assert!(request_with_body(b"{\"a\":").json().unwrap_err().is_eof());
}
