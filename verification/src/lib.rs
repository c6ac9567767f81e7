//! Core of an email open-tracking pixel service.
//!
//! The library has two parts: a decoder that turns the textual form of a
//! 16-byte tracking identifier into a structured value (or reports why it
//! could not), and a request handler that picks the HTTP response for a
//! pixel fetch from the requested filename and assembles the log record
//! for the request. Both are pure: all I/O stays with the caller.

pub mod decode;
pub mod handler;
