//! Reading and writing INI configuration text.
//!
//! `ini_format` holds the document model, `grammar` states the format as spec
//! functions over characters, `reader` is the recursive-descent parser proved
//! against that statement, `writer` renders a document back to text, and
//! `round_trip` proves that writing then reading a parsed document gives it back.

pub mod ini_format;
pub mod grammar;
pub mod reader;
pub mod writer;
pub mod round_trip;
