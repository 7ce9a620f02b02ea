//! Span-mapping and reflow engine for natural-language text embedded in
//! source-code comments.
//!
//! Comment literals that sit on consecutive source lines are merged into one
//! logical block of text (the *virtual text*); linear byte offsets into that
//! block can be translated back into exact source line/column coordinates.
//! A markdown-aware reflow engine rewraps overlong paragraphs to a target
//! width without breaking inline-formatted spans and anchors each replacement
//! to the original source through the mapping.
//!
//! The whole crate works on bytes: offsets, lengths and widths count bytes,
//! and whitespace means the six ASCII blanks (see
//! [`literalset::is_blank_byte`]), so multi-byte Unicode whitespace counts
//! as content.

pub mod span;
pub mod literalset;
pub mod suggestion;
pub mod documentation;
pub mod checker;
pub mod reflow;
mod util;

pub use span::{LineColumn, Span, Range, CoreError};
pub use literalset::{AnnotatedLiteral, AnnotatedLiteralRef, ConsecutiveLiteralSet};
pub use suggestion::{Detector, ContentOrigin, Suggestion, SuggestionSet};
pub use documentation::{CheckableChunk, Documentation};
pub use checker::{tokenize, check, Config};
pub use reflow::{Reflow, ReflowConfig, reflow_inner, check_chunk};
