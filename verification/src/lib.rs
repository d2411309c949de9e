//! Line-oriented pattern search with highlighted matches.
//!
//! A [`Pattern`] is compiled once from a regular expression. Text arrives as
//! inline text or as raw bytes of a file or stream and is cut into lines;
//! [`match_pattern`] then renders every line that matches, wrapping each match
//! in a pair of terminal colour markers.

pub mod highlight;
pub mod lines;
pub mod matcher;
pub mod pattern;
pub mod source;
pub mod text;

pub use highlight::{fits, highlight, HIGHLIGHT_END, HIGHLIGHT_START};
pub use lines::{decode_line, lines_of_bytes, lines_of_text, CARRIAGE_RETURN, LINE_FEED};
pub use matcher::{match_chunk, match_lines, match_pattern};
pub use pattern::{Pattern, PatternError, Span};
pub use source::{select_source, ConfigError, Source};
