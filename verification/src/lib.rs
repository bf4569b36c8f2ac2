//! A parser and writer for the Simple Markup Language (SML), a tree-structured
//! text format layered on whitespace-separated value (WSV) rows.
//!
//! Parsing consumes the rows that the WSV tokenizer yields for a document and
//! assembles a single rooted element tree, driven by an end keyword read from
//! the last non-blank row. Writing serializes a tree back to text with
//! configurable indentation, column alignment and end keyword.

pub mod errors;
pub mod laws;
pub mod parser;
pub mod tree;
pub mod writer;

mod wsv;

pub use errors::ParseError;
pub use errors::SMLError;
pub use errors::SMLErrorType;
pub use errors::SMLWriterError;
pub use parser::parse;
pub use parser::parse_rows;
pub use tree::SMLAttribute;
pub use tree::SMLElement;
pub use writer::ColumnAlignment;
pub use writer::SMLWriter;
