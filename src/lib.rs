//! A small static-file HTTP server: request-line parsing, safe path
//! resolution, response construction and the per-connection decisions.

pub mod text;
pub mod request;
pub mod response;
pub mod server;
pub mod config;
