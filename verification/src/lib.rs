//! A verified field-selection text filter.
//!
//! Given a field specification such as `"0,2-4"` (comma-separated indices
//! and inclusive ranges), the library parses the specification into a
//! normalized list of ranges, splits input lines into whitespace-delimited
//! tokens, and renders the selected fields joined by tabs.

pub mod chars;
pub mod ranges;
pub mod tokenize;
pub mod fieldspec;
pub mod select;
