//! A minimal HTTP/1.1 static-file server library: request parsing, a
//! path-traversal guard over a fixed server root, and response generation
//! with byte-exact serialization, all under verified contracts.
//!
//! The connection handling around it stays outside: the library takes raw
//! request text and plain filesystem facts, and returns the wire bytes.

pub mod text;

pub mod request;

pub mod response;
