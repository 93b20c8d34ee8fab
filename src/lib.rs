//! The source region covered by the tokens of a syntax tree node.

pub mod resolve;
pub mod spanned;

pub use resolve::{resolve_locations, SpanJoining};
pub use spanned::{resolve_spans, span_of, span_of_tokens};
