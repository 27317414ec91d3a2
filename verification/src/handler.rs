//! What route handlers may return.

use vstd::prelude::*;
use vstd::utf8::*;

use crate::json;
use crate::response::{HttpResponse, ResponseView};

verus! {

/// Trait for types that can be converted into an HTTP response.
pub trait IntoRouteResponse {
    fn into_route_response(self) -> (response: HttpResponse);
}

/// A page: 200, with the text as HTML.
pub open spec fn page(text: Seq<char>) -> ResponseView {
    ResponseView::empty(200).with_content("text/html; charset=utf-8"@, text)
}

impl IntoRouteResponse for HttpResponse {
    fn into_route_response(self) -> (response: HttpResponse)
        ensures
            response == self,
    {
        self
    }
}

impl IntoRouteResponse for String {
    fn into_route_response(self) -> (response: HttpResponse)
        ensures
            response@ == page(self@),
            response.status == 200,
            response@.headers == seq![("content-type"@, "text/html; charset=utf-8"@)],
            response.body@ == encode_utf8(self@),
    {
        HttpResponse::status(200).html(self)
    }
}

impl IntoRouteResponse for &str {
    fn into_route_response(self) -> (response: HttpResponse)
        ensures
            response@ == page(self@),
            response.status == 200,
            response@.headers == seq![("content-type"@, "text/html; charset=utf-8"@)],
            response.body@ == encode_utf8(self@),
    {
        self.to_owned().into_route_response()
    }
}

/// HTML response (200 OK, text/html).
pub struct Html(pub String);

impl IntoRouteResponse for Html {
    fn into_route_response(self) -> (response: HttpResponse)
        ensures
            response@ == page(self.0@),
            response.status == 200,
            response@.headers == seq![("content-type"@, "text/html; charset=utf-8"@)],
            response.body@ == encode_utf8(self.0@),
    {
        HttpResponse::status(200).html(self.0)
    }
}

/// JSON response (200 OK, application/json).
pub struct Json<T>(pub T);

impl IntoRouteResponse for Json<serde_json::Value> {
    fn into_route_response(self) -> (response: HttpResponse)
        ensures
            response@ == json::json_outcome(json::json_bytes(self.0)),
            response@.headers == seq![("content-type"@, "application/json"@)],
            match json::json_bytes(self.0) {
                Ok(body) => response.status == 200 && response.body@ == body,
                Err(message) => response.status == 500 && response.body@ == encode_utf8(
                    "{\"error\":\"serialization failed: "@ + message + "\"}"@,
                ),
            },
    {
        json::document_response(&self.0)
    }
}

/// Redirect response (303 See Other).
pub struct Redirect(String);

impl View for Redirect {
    type V = Seq<char>;

    /// The URL to go to.
    closed spec fn view(&self) -> Seq<char> {
        self.0@
    }
}

impl Redirect {
    /// Create a redirect to the given URL (303 See Other).
    pub fn to<U: Into<String>>(url: U) -> (redirect: Redirect)
        ensures
            exists|text: String|
                call_ensures(<U as Into<String>>::into, (url,), text) && redirect@ == text@,
    {
        let text: String = url.into();
        let redirect = Redirect(text);
        assert(call_ensures(<U as Into<String>>::into, (url,), redirect.0) && redirect@
            == redirect.0@);
        redirect
    }
}

impl IntoRouteResponse for Redirect {
    fn into_route_response(self) -> (response: HttpResponse)
        ensures
            response@ == ResponseView::empty(303).with_header("location"@, self@),
            response.status == 303,
            response@.headers == seq![("location"@, self@)],
            response.body@.len() == 0,
    {
        HttpResponse::status(303).header("location", self.0)
    }
}

/// Implement `IntoRouteResponse` for `Result<T, E>` where both implement it.
impl<T: IntoRouteResponse, E: IntoRouteResponse> IntoRouteResponse for Result<T, E> {
    fn into_route_response(self) -> (response: HttpResponse)
        ensures
            match self {
                Ok(v) => call_ensures(T::into_route_response, (v,), response),
                Err(e) => call_ensures(E::into_route_response, (e,), response),
            },
    {
        match self {
            Ok(v) => v.into_route_response(),
            Err(e) => e.into_route_response(),
        }
    }
}

} // verus!
