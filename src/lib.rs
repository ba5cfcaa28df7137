//! A streaming HTTP/1.1 response encoder.
//!
//! The encoder turns a response head (status, reason, optional body length,
//! headers) and a body delivered by a pollable byte source into the exact
//! bytes to write to a connection, pull by pull, into destination buffers of
//! any size.
pub mod bytes;
pub mod chunk;
pub mod digits;
pub mod encoder;
pub mod head;
