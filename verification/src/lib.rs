//! A small HTTP/1.1 request/response engine: request-line and header parsing,
//! a header map with case-folded names, response serialization, gzip content
//! negotiation and single-shot routing over a fixed set of paths.

pub mod body;
pub mod config;
pub mod headers;
pub mod parser;
pub mod request;
pub mod response;
pub mod router;
pub mod text;
