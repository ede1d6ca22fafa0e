//! A verified decoder for LLM chat-completion responses.
//!
//! The streaming side turns an arbitrarily chunked byte stream of
//! Server-Sent Events into ordered content-delta token events while
//! accumulating the full generated text; the non-streaming side extracts
//! the answer text from one complete JSON body. A small configuration
//! module parses the API settings the caller needs to reach the service.

pub mod config;
pub mod decoder;
pub mod extractor;
pub mod framing;
pub mod record;
pub mod session;
