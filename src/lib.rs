//! A minimal HTTP/1.1 engine: a request parser, a URI-keyed handler registry
//! with a static-file fallback, and a response serializer.
//!
//! Everything here works on plain values; sockets, files and threads are the
//! business of the program around the library.
pub mod bytes;
pub mod laws;
pub mod message;
pub mod method;
pub mod parse;
pub mod scan;
pub mod server;
pub mod text;
