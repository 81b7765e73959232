//! A verified reader, repairer and writer for Praat TextGrid annotation data.
//!
//! A document holds a global time range and an ordered list of named tiers;
//! each tier carries either labelled time spans (intervals) or labelled time
//! points.  The crate tokenizes the verbose text format down to its value
//! tokens, decodes documents from that token stream without trusting the
//! declared sizes, repairs boundary defects between adjacent spans, and
//! renders documents back in the two fixed textual layouts.
//!
//! Reading bytes from a file, a stream or a path is left to thin adapters
//! around the crate; the library takes plain lines of text and hands back
//! plain lines of text.

pub mod decimal;
pub mod decode;
pub mod error;
pub mod interval;
pub mod laws;
pub mod point;
pub mod textgrid;
pub mod tokens;
pub mod warning;

pub use decode::{
    parse_interval, parse_one_tier, parse_point, parse_textgrid, parse_tiers, pull_next_integer,
    pull_next_number, verify_start_of_textgrid,
};
pub use error::ParseError;
pub use tokens::{normalize_lines, process_lines, split_line, TokenQueue};
pub use warning::Warning;
