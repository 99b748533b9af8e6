//! A small HTTP/1.1 server's core: request parsing, routing by path and
//! method, and response serialisation with exact content framing. Socket and
//! file-system work is left to the caller, which performs the actions that
//! routing hands back.
pub mod request;
pub mod response;
pub mod router;
pub mod text;
