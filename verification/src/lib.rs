//! Framing of JSON-RPC requests read from a Unix domain socket.
//!
//! A request arrives either netstring-framed (`size:data,`) or terminated by a
//! newline. This crate decides, from the bytes read, which framing applies,
//! how many bytes to read next, and what the request body is; the caller
//! performs the reads.

pub mod error;
pub mod netstring;
pub mod body;
pub mod laws;
