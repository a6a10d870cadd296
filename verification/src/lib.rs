//! A streaming parser for Server-Sent Events, with UTF-8 decoding of the raw bytes.
//!
//! Feed the bytes of a response body into [`SseParser::push`] as they arrive. The parser decodes
//! UTF-8 (characters may be cut in two between chunks), drops a byte order mark, splits lines (LF,
//! CR or CRLF), parses fields and dispatches events. Retrieve completed events with
//! [`SseParser::next_event`], and call [`SseParser::finish`] when the stream ends.
//!
//! - [`parser`] is the parser; its contracts say how each operation moves the state of [`model`].
//! - [`utf8`] is lossy decoding of a byte stream, [`text`] is lines and fields.
//! - [`laws`] holds the theorems about the parser as a whole, and [`stream`] those that say what
//!   becomes of a stream, in bytes, characters and events alone.
//! - [`protocol`] is the vocabulary of the conversations that such streams carry.
pub mod laws;
pub mod model;
pub mod parser;
pub mod protocol;
pub mod stream;
pub mod text;
pub mod utf8;

pub use parser::{SseEvent, SseParser};
pub use protocol::{ContentBlock, Role, StopReason};
