//! Parsing, routing and serialisation for a minimal HTTP/1.1 server.
//!
//! A connection reads one buffer, [`router::handle_connection`] turns it
//! into the next [`router::Action`], and the response that results is put
//! on the wire by [`http_response::HttpResponse::to_bytes`]. The library
//! does no input or output itself: it is handed the bytes that were read
//! and the listing of the root directory, and says what is to be sent,
//! read or written.
//!
//! - [`text`]: bytes, scanning, trimming and decimal numbers.
//! - [`headers`]: the header mapping.
//! - [`http_request`]: the grammar of a request and its parser.
//! - [`http_response`]: responses and their wire format.
//! - [`router`]: the routes.
//! - [`startup`]: the root directory from the command line.
//! - [`laws`]: what holds of every request and response.

pub mod headers;
pub mod http_request;
pub mod http_response;
pub mod laws;
pub mod router;
pub mod startup;
pub mod text;
