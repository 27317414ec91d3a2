//! The decisions of the fallback handler that serves module-defined routes.
//!
//! When a request doesn't match any built-in API route, the handler picks the default
//! module, finds the route among the module's definitions, calls the route's procedure
//! and sends its response. What has to be asked of the host on the way (databases,
//! modules, routes, calls) is an [`Action`]; what the host answers is an [`Event`].

use vstd::prelude::*;
use vstd::utf8::*;

use crate::headers;
use crate::headers::HeaderItem;
use crate::host;
use crate::host::RouteResponse;
use crate::params;
use crate::request::RequestView;
use crate::response::ResponseView;
use crate::text;
use crate::wire;
use crate::wire::TextPair;

verus! {

/// The status that says that there is nothing at the path.
pub const NOT_FOUND: u16 = 404;

/// The status that says that the module or its response failed.
pub const INTERNAL_SERVER_ERROR: u16 = 500;

/// A database by its name or by its identity.
pub enum NameOrIdentity<I> {
    Name(String),
    Identity(I),
}

/// The request that the handler was given.
pub struct IncomingRequest {
    pub method: String,
    pub path: String,
    pub query: Option<String>,
    pub headers: axum::http::HeaderMap<axum::http::HeaderValue>,
    pub body: Vec<u8>,
}

/// The procedure behind a route.
pub struct RouteTarget {
    pub procedure_id: u32,
    pub procedure_name: String,
    pub route_path: Option<String>,
}

/// How far the handler has come.
pub enum Phase {
    /// Waits for the configured default module.
    Choosing,
    /// Waits for the list of databases.
    Listing,
    /// Waits for the database and its leader.
    Locating,
    /// Waits for the module.
    Opening,
    /// Waits for the route.
    Routing,
    /// Waits for the procedure.
    Calling,
    /// Has answered the request.
    Finished,
}

/// What the host reports.
pub enum Event<I> {
    /// The name of the default module, if one is configured.
    DefaultModule(Option<String>),
    /// The published databases, unless listing them failed.
    Databases(Option<Vec<I>>),
    /// Whether the database and its leader were found.
    Located(bool),
    /// Whether the leader gave the module.
    Opened(bool),
    /// The procedure for the method and the path, if the module defines one.
    Route(Option<RouteTarget>),
    /// The bytes that the procedure returned, unless the call failed.
    Returned(Option<Vec<u8>>),
}

/// What the host is to do next.
pub enum Action<I> {
    /// List the published databases.
    ListDatabases,
    /// Find the database and its leader.
    Locate(NameOrIdentity<I>),
    /// Get the module from the leader.
    OpenModule,
    /// Look the method and the path up among the module's routes.
    FindRoute,
    /// Call the procedure with the request.
    Call { procedure_id: u32, procedure_name: String, request: Vec<u8> },
    /// Send the response.
    Respond(RouteResponse),
    /// Answer with a bare status.
    Refuse(u16),
}

impl IncomingRequest {
    /// The text of the query.
    pub open spec fn query_text(self) -> Seq<char> {
        match self.query {
            Some(q) => q@,
            None => Seq::empty(),
        }
    }
}

/// The path parameters of a request at a route.
pub open spec fn route_params(route_path: Seq<char>, path: Seq<char>) -> Seq<TextPair> {
    params::inserted_all(
        Seq::empty(),
        host::captured(text::pieces(route_path, '/'), text::pieces(path, '/')),
    )
}

/// Whether `bytes` are the request at a route, as the module expects it.
pub open spec fn carries(bytes: Seq<u8>, request: IncomingRequest, route_path: Seq<char>) -> bool {
    exists|items: Seq<HeaderItem>|
        headers::lists(items, headers::header_contents(request.headers)) && bytes
            == #[trigger] host::request_head(
            request.method@,
            request.path@,
            items,
            route_params(route_path, request.path@),
            request.query_text(),
        ) + request.body@
}

/// Whether `sent` is what the host makes of a module's response.
pub open spec fn conveys(sent: RouteResponse, response: ResponseView) -> bool {
    &&& sent.status == host::sent_status(response.status)
    &&& headers::header_contents(sent.headers) == host::sent_headers(
        headers::octet_stream_contents(),
        response.headers,
    )
    &&& sent.body@ == response.body
}

/// Whether a phase waits for an event.
pub open spec fn awaits<I>(phase: Phase, event: Event<I>) -> bool {
    match event {
        Event::DefaultModule(_) => phase is Choosing,
        Event::Databases(_) => phase is Listing,
        Event::Located(_) => phase is Locating,
        Event::Opened(_) => phase is Opening,
        Event::Route(_) => phase is Routing,
        Event::Returned(_) => phase is Calling,
    }
}

/// The phase in which an action leaves the handler.
pub open spec fn phase_after<I>(action: Action<I>) -> Phase {
    match action {
        Action::ListDatabases => Phase::Listing,
        Action::Locate(_) => Phase::Locating,
        Action::OpenModule => Phase::Opening,
        Action::FindRoute => Phase::Routing,
        Action::Call { .. } => Phase::Calling,
        Action::Respond(_) => Phase::Finished,
        Action::Refuse(_) => Phase::Finished,
    }
}

/// Whether `action` is the handler's answer to `event`.
pub open spec fn answers<I>(event: Event<I>, request: IncomingRequest, action: Action<I>) -> bool {
    match event {
        // The configured module comes first; without one, the databases decide.
        Event::DefaultModule(Some(name)) => action == Action::<I>::Locate(
            NameOrIdentity::Name(name),
        ),
        Event::DefaultModule(None) => action == Action::<I>::ListDatabases,
        // A sole published database is the default module.
        Event::Databases(Some(databases)) => if databases@.len() == 1 {
            action == Action::<I>::Locate(NameOrIdentity::Identity(databases@[0]))
        } else {
            action == Action::<I>::Refuse(NOT_FOUND)
        },
        Event::Databases(None) => action == Action::<I>::Refuse(NOT_FOUND),
        Event::Located(found) => action == if found {
            Action::<I>::OpenModule
        } else {
            Action::<I>::Refuse(NOT_FOUND)
        },
        Event::Opened(opened) => action == if opened {
            Action::<I>::FindRoute
        } else {
            Action::<I>::Refuse(INTERNAL_SERVER_ERROR)
        },
        Event::Route(None) => action == Action::<I>::Refuse(NOT_FOUND),
        Event::Route(Some(target)) => match target.route_path {
            None => action == Action::<I>::Refuse(NOT_FOUND),
            Some(route_path) => {
                &&& action matches Action::Call { procedure_id, procedure_name, request: bytes }
                &&& procedure_id == target.procedure_id
                &&& procedure_name == target.procedure_name
                &&& carries(bytes@, request, route_path@)
            },
        },
        Event::Returned(None) => action == Action::<I>::Refuse(INTERNAL_SERVER_ERROR),
        Event::Returned(Some(bytes)) => match ResponseView::unwire(bytes@) {
            None => action == Action::<I>::Refuse(INTERNAL_SERVER_ERROR),
            Some(response) => action matches Action::Respond(sent) && conveys(sent, response),
        },
    }
}

/// Whether a phase waits for an event.
fn accepts<I>(phase: &Phase, event: &Event<I>) -> (accepted: bool)
    ensures
        accepted == awaits(*phase, *event),
{
    match (phase, event) {
        (Phase::Choosing, Event::DefaultModule(_)) => true,
        (Phase::Listing, Event::Databases(_)) => true,
        (Phase::Locating, Event::Located(_)) => true,
        (Phase::Opening, Event::Opened(_)) => true,
        (Phase::Routing, Event::Route(_)) => true,
        (Phase::Calling, Event::Returned(_)) => true,
        _ => false,
    }
}

/// The request at a route, encoded for the module.
pub fn route_request(request: &IncomingRequest, route_path: &str) -> (bytes: Vec<u8>)
    ensures
        carries(bytes@, *request, route_path@),
{
    let path_params = host::extract_path_params(route_path, request.path.as_str());
    let query: Option<&str> = match &request.query {
        Some(query) => Some(query.as_str()),
        None => None,
    };
    assert(host::query_text(query) == request.query_text());
    assert(path_params@ == route_params(route_path@, request.path@));
    host::encode_request(
        request.method.as_str(),
        request.path.as_str(),
        &request.headers,
        &path_params,
        query,
        request.body.as_slice(),
    )
}

/// The handler's answer to an event, and the phase in which it then is. An event that
/// the phase does not wait for has no answer.
pub fn step<I>(phase: Phase, event: Event<I>, request: &IncomingRequest) -> (next: Option<
    (Phase, Action<I>),
>)
    ensures
        next is Some <==> awaits(phase, event),
        next matches Some((after, action)) ==> answers(event, *request, action) && after
            == phase_after(action),
        // Each phase takes its own event, whatever it reports.
        next is Some <==> match event {
            Event::DefaultModule(_) => phase is Choosing,
            Event::Databases(_) => phase is Listing,
            Event::Located(_) => phase is Locating,
            Event::Opened(_) => phase is Opening,
            Event::Route(_) => phase is Routing,
            Event::Returned(_) => phase is Calling,
        },
{
    if accepts(&phase, &event) {
        Some(answer(event, request))
    } else {
        None
    }
}

/// The handler's answer to an event, and the phase in which it then is.
fn answer<I>(event: Event<I>, request: &IncomingRequest) -> (next: (Phase, Action<I>))
    ensures
        answers(event, *request, next.1),
        next.0 == phase_after(next.1),
{
    match event {
        Event::DefaultModule(Some(name)) => (
            Phase::Locating,
            Action::Locate(NameOrIdentity::Name(name)),
        ),
        Event::DefaultModule(None) => (Phase::Listing, Action::ListDatabases),
        Event::Databases(Some(databases)) => {
            let mut databases = databases;
            if databases.len() == 1 {
                match databases.pop() {
                    Some(identity) => (
                        Phase::Locating,
                        Action::Locate(NameOrIdentity::Identity(identity)),
                    ),
                    None => (Phase::Finished, Action::Refuse(NOT_FOUND)),
                }
            } else {
                (Phase::Finished, Action::Refuse(NOT_FOUND))
            }
        },
        Event::Databases(None) => (Phase::Finished, Action::Refuse(NOT_FOUND)),
        Event::Located(found) => if found {
            (Phase::Opening, Action::OpenModule)
        } else {
            (Phase::Finished, Action::Refuse(NOT_FOUND))
        },
        Event::Opened(opened) => if opened {
            (Phase::Routing, Action::FindRoute)
        } else {
            (Phase::Finished, Action::Refuse(INTERNAL_SERVER_ERROR))
        },
        Event::Route(None) => (Phase::Finished, Action::Refuse(NOT_FOUND)),
        Event::Route(Some(target)) => match target.route_path {
            None => (Phase::Finished, Action::Refuse(NOT_FOUND)),
            Some(route_path) => {
                let bytes = route_request(request, route_path.as_str());
                (
                    Phase::Calling,
                    Action::Call {
                        procedure_id: target.procedure_id,
                        procedure_name: target.procedure_name,
                        request: bytes,
                    },
                )
            },
        },
        Event::Returned(None) => (Phase::Finished, Action::Refuse(INTERNAL_SERVER_ERROR)),
        Event::Returned(Some(bytes)) => match host::decode_route_response(bytes.as_slice()) {
            Ok(sent) => (Phase::Finished, Action::Respond(sent)),
            Err(status) => (Phase::Finished, Action::Refuse(status)),
        },
    }
}

/// The number of events that a phase can still take.
pub open spec fn events_left(phase: Phase) -> nat {
    match phase {
        Phase::Choosing => 6,
        Phase::Listing => 5,
        Phase::Locating => 4,
        Phase::Opening => 3,
        Phase::Routing => 2,
        Phase::Calling => 1,
        Phase::Finished => 0,
    }
}

/// Every event brings the handler closer to its answer.
pub proof fn handler_advances<I>(
    phase: Phase,
    event: Event<I>,
    request: IncomingRequest,
    action: Action<I>,
)
    requires
        awaits(phase, event),
        answers(event, request, action),
    ensures
        events_left(phase_after(action)) < events_left(phase),
{
}

/// A handler that has answered the request takes no further event; until then it always
/// waits for one.
pub proof fn answer_is_final<I>(action: Action<I>)
    ensures
        (action is Respond || action is Refuse) <==> phase_after(action) is Finished,
        phase_after(action) is Finished ==> forall|event: Event<I>|
            !#[trigger] awaits(phase_after(action), event),
        !(phase_after(action) is Finished) ==> exists|event: Event<I>|
            #[trigger] awaits(phase_after(action), event),
{
    let after = phase_after(action);
    match action {
        Action::ListDatabases => assert(awaits(after, Event::<I>::Databases(None))),
        Action::Locate(_) => assert(awaits(after, Event::<I>::Located(true))),
        Action::OpenModule => assert(awaits(after, Event::<I>::Opened(true))),
        Action::FindRoute => assert(awaits(after, Event::<I>::Route(None))),
        Action::Call { .. } => assert(awaits(after, Event::<I>::Returned(None))),
        Action::Respond(_) => {},
        Action::Refuse(_) => {},
    }
}

/// A refusal is 404 where there is no default module, database, route or route path, and
/// 500 where the module cannot be had, the call fails or its response is malformed.
pub proof fn refusal_status<I>(event: Event<I>, request: IncomingRequest, action: Action<I>)
    requires
        answers(event, request, action),
    ensures
        action == Action::<I>::Refuse(NOT_FOUND) <==> match event {
            Event::Databases(Some(databases)) => databases@.len() != 1,
            Event::Databases(None) => true,
            Event::Located(found) => !found,
            Event::Route(None) => true,
            Event::Route(Some(target)) => target.route_path is None,
            _ => false,
        },
        action == Action::<I>::Refuse(INTERNAL_SERVER_ERROR) <==> match event {
            Event::Opened(opened) => !opened,
            Event::Returned(None) => true,
            Event::Returned(Some(bytes)) => ResponseView::unwire(bytes@) is None,
            _ => false,
        },
        action matches Action::Refuse(status) ==> status == NOT_FOUND || status
            == INTERNAL_SERVER_ERROR,
{
}

/// What the module decodes from the bytes that its procedure is called with is the
/// request: its method, path, query and body, the parameters of the route, and every
/// header, as far as all of it fits the wire format.
pub proof fn module_sees_request(bytes: Seq<u8>, request: IncomingRequest, route_path: Seq<char>)
    requires
        carries(bytes, request, route_path),
        wire::text_fits(request.method@),
        wire::text_fits(request.path@),
        wire::text_fits(request.query_text()),
        route_params(route_path, request.path@).len() <= wire::MAX_WIRE_ITEMS,
        wire::pairs_fit(route_params(route_path, request.path@)),
        forall|items: Seq<HeaderItem>| #[trigger]
            headers::lists(items, headers::header_contents(request.headers)) ==> items.len()
                <= wire::MAX_WIRE_ITEMS && host::items_fit(items),
    ensures
        exists|items: Seq<HeaderItem>| #[trigger]
            headers::lists(items, headers::header_contents(request.headers))
                && RequestView::unwire(bytes) == Some(
                RequestView {
                    method: request.method@,
                    path: request.path@,
                    headers: host::items_text(items),
                    path_params: route_params(route_path, request.path@),
                    query: request.query_text(),
                    body: request.body@,
                },
            ),
{
    let path_params = route_params(route_path, request.path@);
    let items = choose|items: Seq<HeaderItem>|
        headers::lists(items, headers::header_contents(request.headers)) && bytes
            == #[trigger] host::request_head(
            request.method@,
            request.path@,
            items,
            path_params,
            request.query_text(),
        ) + request.body@;
    params::inserted_all_distinct(
        Seq::empty(),
        host::captured(text::pieces(route_path, '/'), text::pieces(request.path@, '/')),
    );
    host::host_request_round_trip(
        request.method@,
        request.path@,
        items,
        path_params,
        request.query_text(),
        request.body@,
    );
}

/// The response that a module encodes is the response that the host sends.
pub proof fn client_sees_response<I>(
    response: ResponseView,
    bytes: Vec<u8>,
    request: IncomingRequest,
    action: Action<I>,
)
    requires
        response.fits_wire(),
        bytes@ == response.wire(),
        answers(Event::<I>::Returned(Some(bytes)), request, action),
    ensures
        action matches Action::Respond(sent) && conveys(sent, response),
{
    crate::response::response_round_trip(response);
}

/// The answer to every event that leads on: the configured module is located by its name,
/// whatever the name; without one the databases are listed, and a sole one is located by
/// its identity; a database that was found is opened; an open module is asked for the
/// route; and the procedure of the route is called.
pub proof fn event_answered<I>(event: Event<I>, request: IncomingRequest, action: Action<I>)
    requires
        answers(event, request, action),
    ensures
        event matches Event::DefaultModule(Some(name)) ==> action == Action::<I>::Locate(
            NameOrIdentity::Name(name),
        ),
        event matches Event::DefaultModule(None) ==> action == Action::<I>::ListDatabases,
        event matches Event::Databases(Some(databases)) ==> databases@.len() == 1 ==> action
            == Action::<I>::Locate(NameOrIdentity::Identity(databases@[0])),
        event matches Event::Databases(Some(databases)) ==> databases@.len() != 1 ==> action
            == Action::<I>::Refuse(404),
        event matches Event::Databases(None) ==> action == Action::<I>::Refuse(404),
        event matches Event::Located(true) ==> action == Action::<I>::OpenModule,
        event matches Event::Located(false) ==> action == Action::<I>::Refuse(404),
        event matches Event::Opened(true) ==> action == Action::<I>::FindRoute,
        event matches Event::Opened(false) ==> action == Action::<I>::Refuse(500),
        event matches Event::Route(None) ==> action == Action::<I>::Refuse(404),
        event matches Event::Route(Some(target)) ==> match target.route_path {
            None => action == Action::<I>::Refuse(404),
            Some(route_path) => {
                &&& action matches Action::Call { procedure_id, procedure_name, request: bytes }
                &&& procedure_id == target.procedure_id
                &&& procedure_name@ == target.procedure_name@
                &&& carries(bytes@, request, route_path@)
            },
        },
        event matches Event::Returned(None) ==> action == Action::<I>::Refuse(500),
        event matches Event::Returned(Some(bytes)) ==> if ResponseView::unwire(bytes@) is Some {
            action is Respond
        } else {
            action == Action::<I>::Refuse(500)
        },
{
}

/// After an action the handler waits for the host to report on just that action.
pub proof fn action_awaited<I>(action: Action<I>, event: Event<I>)
    ensures
        awaits(phase_after(action), event) <==> match event {
            Event::DefaultModule(_) => false,
            Event::Databases(_) => action is ListDatabases,
            Event::Located(_) => action is Locate,
            Event::Opened(_) => action is OpenModule,
            Event::Route(_) => action is FindRoute,
            Event::Returned(_) => action is Call,
        },
{
}

/// The module decodes from the bytes that its procedure is called with the method, the
/// path, the whole query and the body of the request, all of its headers, and, for every
/// part `:name` of the route, the part of the path in its place under `name`.
pub proof fn route_request_decoded(bytes: Seq<u8>, request: IncomingRequest, route_path: Seq<char>)
    requires
        carries(bytes, request, route_path),
        encode_utf8(request.method@).len() < 0x1_0000_0000,
        encode_utf8(request.path@).len() < 0x1_0000_0000,
        encode_utf8(route_path).len() < 0x1_0000_0000,
        request.query matches Some(q) ==> encode_utf8(q@).len() < 0x1_0000_0000,
        forall|items: Seq<HeaderItem>, i: int|
            #![trigger headers::lists(items, headers::header_contents(request.headers)), items[i]]
            headers::lists(items, headers::header_contents(request.headers)) && 0 <= i < items.len()
                ==> encode_utf8(items[i].0).len() < 0x1_0000_0000 && items[i].1.len()
                < 0x1_0000_0000,
        forall|items: Seq<HeaderItem>| #[trigger]
            headers::lists(items, headers::header_contents(request.headers)) ==> items.len()
                <= 1024,
    ensures
        text::pieces(route_path, '/').len() <= 1024 || text::pieces(request.path@, '/').len()
            <= 1024 ==> RequestView::unwire(bytes) is Some,
        RequestView::unwire(bytes) matches Some(seen) ==> {
            &&& seen.method == request.method@
            &&& seen.path == request.path@
            &&& match request.query {
                Some(q) => seen.query == q@,
                None => seen.query.len() == 0,
            }
            &&& seen.body == request.body@
            &&& exists|items: Seq<HeaderItem>| #[trigger]
                headers::lists(items, headers::header_contents(request.headers))
                    && seen.headers.len() == items.len() && forall|i: int|
                    0 <= i < items.len() ==> (#[trigger] seen.headers[i]).0 == items[i].0
                        && seen.headers[i].1 == text::lossy_text(items[i].1)
            &&& forall|name: Seq<char>, i: int|
                #![trigger params::value_of(seen.path_params, name), text::pieces(request.path@, '/')[i]]
                0 <= i < text::pieces(route_path, '/').len() && i < text::pieces(
                    request.path@,
                    '/',
                ).len() && text::pieces(route_path, '/')[i] == seq![':'] + name && (forall|j: int|
                    i < j < text::pieces(route_path, '/').len() && j < text::pieces(
                        request.path@,
                        '/',
                    ).len() ==> #[trigger] text::pieces(route_path, '/')[j] != seq![':'] + name)
                    ==> params::value_of(seen.path_params, name) == Some(
                    text::pieces(request.path@, '/')[i],
                )
            &&& forall|name: Seq<char>|
                (forall|j: int|
                    0 <= j < text::pieces(route_path, '/').len() && j < text::pieces(
                        request.path@,
                        '/',
                    ).len() ==> #[trigger] text::pieces(route_path, '/')[j] != seq![':'] + name)
                    ==> #[trigger] params::value_of(seen.path_params, name) is None
        },
{
    let pats = text::pieces(route_path, '/');
    let vals = text::pieces(request.path@, '/');
    let caught = host::captured(pats, vals);
    let path_params = route_params(route_path, request.path@);
    let items = choose|items: Seq<HeaderItem>|
        headers::lists(items, headers::header_contents(request.headers)) && bytes
            == #[trigger] host::request_head(
            request.method@,
            request.path@,
            items,
            path_params,
            request.query_text(),
        ) + request.body@;
    assert forall|i: int| 0 <= i < pats.len() implies wire::text_fits(#[trigger] pats[i]) by {
        text::lemma_piece_len(route_path, '/', i);
    }
    assert forall|i: int| 0 <= i < vals.len() implies wire::text_fits(#[trigger] vals[i]) by {
        text::lemma_piece_len(request.path@, '/', i);
    }
    host::lemma_captured_fit(pats, vals);
    host::lemma_captured_count(route_path, vals);
    host::lemma_captured_values(pats, vals);
    text::lemma_utf8_len(route_path);
    params::inserted_all_distinct(Seq::empty(), caught);
    params::inserted_all_len(Seq::empty(), caught);
    params::lemma_inserted_all_fit(Seq::empty(), caught);
    assert forall|i: int| 0 <= i < path_params.len() implies encode_utf8(
        (#[trigger] path_params[i]).0,
    ).len() < 0x1_0000_0000 && encode_utf8(path_params[i].1).len() < 0x1_0000_0000 by {
        assert(wire::text_fits(path_params[i].0));
    }
    if request.query is None {
        assert(encode_utf8(request.query_text()).len() == 0);
    }
    if path_params.len() <= 1024 {
        host::host_request_decoded(
            request.method@,
            request.path@,
            items,
            path_params,
            request.query_text(),
            request.body@,
        );
    } else {
        host::many_params_refused(
            request.method@,
            request.path@,
            items,
            path_params,
            request.query_text(),
            request.body@,
        );
    }
}

/// The bytes that a procedure is called with are the method, the path, all headers, the
/// parameters of the route, the whole query and the body, however many they are.
pub proof fn route_request_layout(
    bytes: Seq<u8>,
    request: IncomingRequest,
    route_path: Seq<char>,
) -> (parts: (Seq<HeaderItem>, Seq<TextPair>, Seq<char>))
    requires
        carries(bytes, request, route_path),
    ensures
        ({
            let (items, path_params, query) = parts;
            &&& headers::lists(items, headers::header_contents(request.headers))
            &&& bytes == host::request_head(
                request.method@,
                request.path@,
                items,
                path_params,
                query,
            ) + request.body@
            &&& match request.query {
                Some(q) => query == q@,
                None => query.len() == 0,
            }
            &&& forall|i: int, j: int|
                0 <= i < j < path_params.len() ==> (#[trigger] path_params[i]).0 != (
                #[trigger] path_params[j]).0
            &&& forall|name: Seq<char>, i: int|
                #![trigger params::value_of(path_params, name), text::pieces(request.path@, '/')[i]]
                0 <= i < text::pieces(route_path, '/').len() && i < text::pieces(
                    request.path@,
                    '/',
                ).len() && text::pieces(route_path, '/')[i] == seq![':'] + name && (forall|j: int|
                    i < j < text::pieces(route_path, '/').len() && j < text::pieces(
                        request.path@,
                        '/',
                    ).len() ==> #[trigger] text::pieces(route_path, '/')[j] != seq![':'] + name)
                    ==> params::value_of(path_params, name) == Some(
                    text::pieces(request.path@, '/')[i],
                )
            &&& forall|name: Seq<char>|
                (forall|j: int|
                    0 <= j < text::pieces(route_path, '/').len() && j < text::pieces(
                        request.path@,
                        '/',
                    ).len() ==> #[trigger] text::pieces(route_path, '/')[j] != seq![':'] + name)
                    ==> #[trigger] params::value_of(path_params, name) is None
        }),
{
    let pats = text::pieces(route_path, '/');
    let vals = text::pieces(request.path@, '/');
    let path_params = route_params(route_path, request.path@);
    let items = choose|items: Seq<HeaderItem>|
        headers::lists(items, headers::header_contents(request.headers)) && bytes
            == #[trigger] host::request_head(
            request.method@,
            request.path@,
            items,
            path_params,
            request.query_text(),
        ) + request.body@;
    host::lemma_captured_values(pats, vals);
    params::inserted_all_distinct(Seq::empty(), host::captured(pats, vals));
    (items, path_params, request.query_text())
}

/// The client is sent the status that the module set, where it is one, the body as it is,
/// and each header that can be sent, the last of a name; without a content type from the
/// module, the body is sent as raw bytes, and nothing else is added.
pub proof fn module_response_sent<I>(
    response: ResponseView,
    bytes: Vec<u8>,
    request: IncomingRequest,
    action: Action<I>,
)
    requires
        ResponseView::unwire(bytes@) == Some(response),
        answers(Event::<I>::Returned(Some(bytes)), request, action),
    ensures
        action matches Action::Respond(sent) && {
            let contents = headers::header_contents(sent.headers);
            &&& 100 <= response.status <= 999 ==> sent.status == response.status
            &&& response.status < 100 || response.status > 999 ==> sent.status == 500
            &&& sent.body@ == response.body
            &&& forall|i: int|
                #![trigger response.headers[i]]
                0 <= i < response.headers.len() && headers::is_header_name(response.headers[i].0)
                    && headers::is_header_value(response.headers[i].1) && (forall|j: int|
                    i < j < response.headers.len() ==> !headers::is_header_name(
                        (#[trigger] response.headers[j]).0,
                    ) || !headers::is_header_value(response.headers[j].1) || headers::normal_name(
                        response.headers[j].0,
                    ) != headers::normal_name(response.headers[i].0)) ==> contents.contains_key(
                    headers::normal_name(response.headers[i].0),
                ) && contents[headers::normal_name(response.headers[i].0)] == seq![
                    encode_utf8(response.headers[i].1),
                ]
            &&& forall|name: Seq<char>|
                (forall|j: int|
                    0 <= j < response.headers.len() ==> !headers::is_header_name(
                        (#[trigger] response.headers[j]).0,
                    ) || !headers::is_header_value(response.headers[j].1) || headers::normal_name(
                        response.headers[j].0,
                    ) != name) ==> (#[trigger] contents.contains_key(name) <==> name
                    == "content-type"@) && (name == "content-type"@ ==> contents[name] == seq![
                    encode_utf8("application/octet-stream"@),
                ])
        },
{
    host::status_sent(response.status);
    let sent = action->Respond_0;
    let start = headers::octet_stream_contents();
    let contents = headers::header_contents(sent.headers);
    assert forall|i: int|
        #![trigger response.headers[i]]
        0 <= i < response.headers.len() && headers::is_header_name(response.headers[i].0)
            && headers::is_header_value(response.headers[i].1) && (forall|j: int|
            i < j < response.headers.len() ==> !headers::is_header_name(
                (#[trigger] response.headers[j]).0,
            ) || !headers::is_header_value(response.headers[j].1) || headers::normal_name(
                response.headers[j].0,
            ) != headers::normal_name(response.headers[i].0)) implies contents.contains_key(
        headers::normal_name(response.headers[i].0),
    ) && contents[headers::normal_name(response.headers[i].0)] == seq![
        encode_utf8(response.headers[i].1),
    ] by {
        host::good_header_sent(start, response.headers, i);
    }
    assert forall|name: Seq<char>|
        (forall|j: int|
            0 <= j < response.headers.len() ==> !headers::is_header_name(
                (#[trigger] response.headers[j]).0,
            ) || !headers::is_header_value(response.headers[j].1) || headers::normal_name(
                response.headers[j].0,
            ) != name) implies (#[trigger] contents.contains_key(name) <==> name
        == "content-type"@) && (name == "content-type"@ ==> contents[name] == seq![
        encode_utf8("application/octet-stream"@),
    ]) by {
        host::unset_header_kept(start, response.headers, name);
        headers::octet_stream_holds(name);
    }
}

} // verus!
