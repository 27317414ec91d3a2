//! HTTP routes that wasm modules define and a host serves.
//!
//! Route handlers receive an [`HttpRequest`] and return types implementing
//! [`IntoRouteResponse`], which converts to an [`HttpResponse`]. Both types cross the
//! wasm boundary using a simple length-prefixed binary wire format.
//!
//! The module's side is in [`request`], [`response`], [`handler`], [`json`] and
//! [`registration`]; the host's side is in [`host`] and [`dispatch`].

pub mod dispatch;
pub mod fields;
pub mod handler;
pub mod headers;
pub mod host;
pub mod json;
pub mod params;
pub mod registration;
pub mod request;
pub mod response;
pub mod text;
pub mod urlencoding;
pub mod wire;

pub use crate::handler::{Html, IntoRouteResponse, Json, Redirect};
pub use crate::params::PathParams;
pub use crate::request::HttpRequest;
pub use crate::response::HttpResponse;
