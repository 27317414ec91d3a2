# module_routes

HTTP routes that wasm modules define and a host serves, verified with Verus.

- `src/` is the verified library: requests and responses and their wire format, what
  route handlers may return, header, cookie, query and form look-ups, and the host's
  side, that is path parameters, the request handed to a module, the response handed
  back, and the decisions of the fallback handler.
- `tests/` runs the library.
- `app/` is ordinary Rust around it: the axum handler, the generator behind the route
  macro, and JSON bodies of any type that serde can read or write.
