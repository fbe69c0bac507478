//! HTTP primitives: methods, status codes, headers, requests, responses and the parser.

pub mod method;
pub mod status;
pub mod headers;
pub mod request;
pub mod parser;
pub mod response;
pub mod server;
pub mod roundtrip;
