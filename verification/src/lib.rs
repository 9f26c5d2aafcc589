//! Reverse-format text extraction.
//!
//! A template such as `"{}@{}x{}"` is a literal text with placeholder markers.
//! Matching it against an input line locates the literal fragments of the
//! template in the input, in order, and hands back the pieces of the input
//! that lie between them. The captures can then be bound to typed slots.
//!
//! Positions and lengths count characters throughout. What each function
//! returns is stated over sequences of characters: `template` says what the
//! fragments of a template are, `search` where a fragment first occurs,
//! `matcher` what a match captures, `bind` what a capture converts into, and
//! `laws` what follows for every line and every template.

pub mod bind;
pub mod error;
pub mod laws;
pub mod matcher;
pub mod search;
pub mod template;
pub mod text;

pub use crate::bind::{bind, convert, convert_integer, match_and_parse, SlotType, Value};
pub use crate::error::MatchError;
pub use crate::matcher::{match_fragments, split_line};
pub use crate::template::segment;
