//! A client's side of the HTTP/1.1 wire format: requests are built and
//! written out as bytes, and the bytes of a response are read back into
//! status, headers and body.
//!
//! The crate does no I/O. A caller writes what [`request::Request::write`]
//! produces to a transport of its choice, reads the reply to its end, and
//! hands the buffer to [`response::Response::from_bytes`].
//!
//! Every function is verified against a contract over a mathematical model:
//! [`request::RequestView::wire`] says which bytes a request is, and
//! [`response::decode`] says what a buffer decodes to. [`laws`] states what
//! follows from the two.
//!
//! Two things are assumed rather than proved, each where it is declared:
//! what `String::from_utf8_lossy` makes of bytes ([`text`]), and what the
//! `url` crate makes of a URL's text ([`target`]).

pub mod error;
pub mod header;
pub mod laws;
pub mod request;
pub mod response;
pub mod target;
pub mod text;
pub mod wire;

pub use error::Error;
