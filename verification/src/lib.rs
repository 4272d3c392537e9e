//! A router for a service that keeps roles: the routes of the service are
//! compiled into one automaton, and a request is matched in one walk over the
//! characters of its path and its method.
//!
//! - `automaton` is the engine: nodes, edges by token, loops and payloads.
//! - `router` compiles path templates into the automaton and matches requests.
//! - `model` and `response` hold the resources of the service, the ways in
//!   which it fails and the errors that it reports.

pub mod automaton;
pub mod model;
pub mod response;
pub mod router;
