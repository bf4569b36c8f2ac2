//! The two closed error taxonomies: one for parsing, one for writing.

use vstd::prelude::*;

verus! {

/// The kind of a structural parse failure.
#[derive(Debug, Clone, Copy, PartialEq, Eq, Structural)]
pub enum SMLErrorType {
    /// The document has no non-blank row, so no end keyword could be read
    /// from its last non-blank row.
    EndKeywordNotDetected,
    /// The first non-blank row has more than one field, so it cannot open
    /// the root element.
    InvalidRootElementStart,
    /// A row that should carry an element name carries the null value.
    NullValueAsElementName,
    /// The first field of an attribute row is the null value.
    NullValueAsAttributeName,
    /// The input ended while at least one opened element was still waiting
    /// for its closing row.
    RootNotClosed,
    /// A row was seen after the root element had already been closed, or an
    /// attribute row arrived while no element was open.
    OnlyOneRootElementAllowed,
}

/// Mathematical model of a structural parse failure: its kind and the
/// 0-based index of the row where it was detected.
pub struct SMLErrorV {
    pub err_type: SMLErrorType,
    pub line: int,
}

/// A structural parse failure: its kind and the 0-based index of the row
/// where it was detected (the row count of the document for failures seen
/// only at end of input).
#[derive(Debug, Clone)]
pub struct SMLError {
    pub err_type: SMLErrorType,
    pub line_num: usize,
}

impl View for SMLError {
    type V = SMLErrorV;

    open spec fn view(&self) -> SMLErrorV {
        SMLErrorV { err_type: self.err_type, line: self.line_num as int }
    }
}

impl SMLError {
    /// The kind of this failure.
    pub fn err_type(&self) -> (t: SMLErrorType)
        ensures
            t == self.err_type,
    {
        self.err_type
    }

    /// The 0-based index of the row where the failure was detected.
    pub fn line_num(&self) -> (n: usize)
        ensures
            n == self.line_num,
    {
        self.line_num
    }
}

/// A parse failure: either the row tokenizer rejected the text, or the rows
/// did not form a single well-nested element tree.
#[derive(Debug)]
pub enum ParseError {
    WSV(whitespacesv::WSVError),
    SML(SMLError),
}

/// The kind of a write failure.
#[derive(Debug, Clone, Copy, PartialEq, Eq, Structural)]
pub enum SMLWriterError {
    /// An element name equals the configured end keyword, so the element
    /// line would be indistinguishable from a closing line.
    ElementHasEndKeywordName,
    /// An attribute name equals the configured end keyword.
    AttributeHasEndKeywordName,
}

} // verus!
