//! What holds of every table of routes and of every request.

pub mod alone;
pub mod facts;
pub mod matching;
pub mod not_found;
pub mod repeating;
pub mod sharing;
