//! A verified client-side transport layer for the Language Server Protocol:
//! framing of JSON-RPC messages with `Content-Length` headers, decoding of
//! incoming frames, and correlation of responses with pending requests.

pub mod byteops;
pub mod numbers;
pub mod parsing;
pub mod json_io;
pub mod client;
