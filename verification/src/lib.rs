//! Server-Sent Events wire format: an event record, its canonical text
//! encoding, and an incremental parser that recovers events from a buffer.
//!
//! Text is modelled as `Seq<char>` throughout the contracts. The executable
//! parser walks the UTF-8 bytes of the buffer and hands out borrowed slices.
//! Nothing here fails: what is irregular is passed over, and a caller who
//! wants to know of it asks for the diagnostics.
//!
//! Two choices of the wire grammar are worth knowing. The end of the buffer
//! counts as a line terminator, so an event that the buffer cuts short is
//! still delivered. A backslash just before a carriage return keeps that
//! carriage return in the value; a line feed always ends the value.

pub mod diagnostic;
pub mod event;
pub mod grammar;
pub mod keyword;
pub mod laws;
pub mod parser;
pub mod utf8;

pub use diagnostic::Diagnostic;
pub use event::{SSEBuilder, ServerSentEvent};
pub use keyword::Keyword;
pub use parser::Parser;
