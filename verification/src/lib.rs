//! A selection-list parser and extraction engine.
//!
//! The [`selection`] module turns a user-supplied position specification
//! such as `"1,3,5-8"` into a validated list of half-open, 0-indexed
//! ranges.  The [`extract`] module applies such a list to one line of
//! input, selecting characters, bytes, or delimiter-separated fields.
//! The [`wc`] module holds a line/word/byte/character counter for whole
//! texts.
//!
//! Parsing is strict: a malformed token fails the whole selection with a
//! precise diagnosis.  Extraction is lenient: it never fails, and indices
//! that fall beyond a short line or record are silently skipped.  The
//! host command-line program around this crate only opens files, hands
//! each line in, and prints what comes back.

pub mod extract;
pub mod selection;
pub mod wc;

pub use extract::extract_bytes;
pub use extract::extract_chars;
pub use extract::extract_fields;
pub use extract::Config;
pub use extract::Extract;
pub use selection::parse_idx;
pub use selection::parse_pos;
pub use selection::parse_range;
pub use selection::ParseError;
pub use selection::PositionList;
pub use wc::count;
pub use wc::FileInfo;
