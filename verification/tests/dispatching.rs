use axum::http::{HeaderMap, HeaderValue};
use module_routes::dispatch::{
    route_request, step, Action, Event, IncomingRequest, NameOrIdentity, Phase, RouteTarget,
};
use module_routes::registration::register_describer_symbol;
use module_routes::{HttpRequest, HttpResponse};

fn incoming() -> IncomingRequest {
    let mut headers = HeaderMap::new();
    headers.insert("host", HeaderValue::from_static("localhost"));
    IncomingRequest {
        method: "GET".to_string(),
        path: "/brick/42".to_string(),
        query: Some("a=1".to_string()),
        headers,
        body: b"body".to_vec(),
    }
}

fn go(phase: Phase, event: Event<u64>) -> (Phase, Action<u64>) {
    step(phase, event, &incoming()).unwrap_or_else(|| panic!("not awaited"))
}

fn refused(phase: Phase, event: Event<u64>) -> u16 {
    match go(phase, event) {
        (Phase::Finished, Action::Refuse(status)) => status,
        _ => panic!("not refused"),
    }
}

fn target(route_path: Option<&str>) -> RouteTarget {
    RouteTarget {
        procedure_id: 7,
        procedure_name: "show_brick".to_string(),
        route_path: route_path.map(|p| p.to_string()),
    }
}

#[test]
fn the_configured_module_comes_first() {
    match go(Phase::Choosing, Event::DefaultModule(Some("bricks".to_string()))) {
        (Phase::Locating, Action::Locate(NameOrIdentity::Name(name))) => {
            assert_eq!(name, "bricks")
        }
        _ => panic!(),
    }
}

#[test]
fn without_a_configured_module_the_databases_decide() {
    assert!(matches!(
        go(Phase::Choosing, Event::DefaultModule(None)),
        (Phase::Listing, Action::ListDatabases)
    ));
}

#[test]
fn a_sole_database_is_the_default() {
    assert!(matches!(
        go(Phase::Listing, Event::Databases(Some(vec![9]))),
        (Phase::Locating, Action::Locate(NameOrIdentity::Identity(9)))
    ));
}

#[test]
fn no_sole_database_is_not_found() {
    assert_eq!(refused(Phase::Listing, Event::Databases(Some(vec![]))), 404);
    assert_eq!(refused(Phase::Listing, Event::Databases(Some(vec![1, 2]))), 404);
    assert_eq!(refused(Phase::Listing, Event::Databases(None)), 404);
}

#[test]
fn a_missing_database_is_not_found() {
    assert_eq!(refused(Phase::Locating, Event::Located(false)), 404);
    assert!(matches!(
        go(Phase::Locating, Event::Located(true)),
        (Phase::Opening, Action::OpenModule)
    ));
}

#[test]
fn a_module_that_cannot_be_had_is_an_error() {
    assert_eq!(refused(Phase::Opening, Event::Opened(false)), 500);
    assert!(matches!(
        go(Phase::Opening, Event::Opened(true)),
        (Phase::Routing, Action::FindRoute)
    ));
}

#[test]
fn a_missing_route_is_not_found() {
    assert_eq!(refused(Phase::Routing, Event::Route(None)), 404);
    assert_eq!(refused(Phase::Routing, Event::Route(Some(target(None)))), 404);
}

#[test]
fn the_procedure_is_called_with_the_request() {
    match go(Phase::Routing, Event::Route(Some(target(Some("/brick/:id"))))) {
        (Phase::Calling, Action::Call { procedure_id, procedure_name, request }) => {
            assert_eq!(procedure_id, 7);
            assert_eq!(procedure_name, "show_brick");
            assert_eq!(request, route_request(&incoming(), "/brick/:id"));
            let seen = HttpRequest::decode(&request).unwrap();
            assert_eq!(seen.method, "GET");
            assert_eq!(seen.path, "/brick/42");
            assert_eq!(seen.headers, vec![("host".to_string(), "localhost".to_string())]);
            assert_eq!(seen.path_params.len(), 1);
            assert_eq!(seen.path_param("id"), Some("42"));
            assert_eq!(seen.query, "a=1");
            assert_eq!(seen.body, b"body".to_vec());
        }
        _ => panic!(),
    }
}

#[test]
fn the_response_of_the_module_is_sent() {
    let response = HttpResponse::status(418).text("short and stout");
    match go(Phase::Calling, Event::Returned(Some(response.encode()))) {
        (Phase::Finished, Action::Respond(sent)) => {
            assert_eq!(sent.status, 418);
            assert_eq!(sent.headers.len(), 1);
            assert_eq!(sent.headers.get("content-type").unwrap(), "text/plain; charset=utf-8");
            assert_eq!(sent.body, b"short and stout".to_vec());
        }
        _ => panic!(),
    }
}

#[test]
fn a_failed_call_or_response_is_an_error() {
    assert_eq!(refused(Phase::Calling, Event::Returned(None)), 500);
    assert_eq!(refused(Phase::Calling, Event::Returned(Some(vec![1, 2, 3]))), 500);
}

#[test]
fn a_query_may_be_missing() {
    let mut request = incoming();
    request.query = None;
    let seen = HttpRequest::decode(&route_request(&request, "/:kind/:id")).unwrap();
    assert_eq!(seen.query, "");
    assert_eq!(seen.path_param("kind"), Some("brick"));
}

#[test]
fn events_out_of_turn_have_no_answer() {
    assert!(step(Phase::Finished, Event::<u64>::Returned(None), &incoming()).is_none());
    assert!(step(Phase::Finished, Event::<u64>::DefaultModule(None), &incoming()).is_none());
    assert!(step(Phase::Choosing, Event::<u64>::Databases(None), &incoming()).is_none());
    assert!(step(Phase::Listing, Event::<u64>::Located(true), &incoming()).is_none());
    assert!(step(Phase::Locating, Event::<u64>::Opened(true), &incoming()).is_none());
    assert!(step(Phase::Opening, Event::<u64>::Route(None), &incoming()).is_none());
    assert!(step(Phase::Routing, Event::<u64>::Returned(None), &incoming()).is_none());
    assert!(step(Phase::Calling, Event::<u64>::DefaultModule(None), &incoming()).is_none());
}

#[test]
fn describers_are_named_after_their_routes() {
    assert_eq!(
        register_describer_symbol("show_brick"),
        "__preinit__20_register_route_describer_show_brick"
    );
    assert_ne!(register_describer_symbol("a"), register_describer_symbol("b"));
}
