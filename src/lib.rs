//! A configurable HTTP/1.1 origin server: request parsing, routing,
//! dispatch, responses, CGI and sessions, with their contracts.
pub mod bytes;
pub mod fields;
pub mod http_parser;
pub mod http_response;
pub mod config;
pub mod dispatch;
pub mod cgi;
pub mod session;
pub mod client;
