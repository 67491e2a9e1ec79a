use vstd::prelude::*;

use crate::key_code::PrintKeyCode;

verus! {

/// Why a document could not be turned into a parcel table.
#[derive(Debug, Clone)]
pub enum ParseError {
    /// Marker text that is not `<section>-<block>-<lot>`; holds the text.
    MalformedKeyCode { text: String },
    /// A second block under a key already in the table; holds the key.
    DuplicateKeyCode { key: PrintKeyCode },
}

/// The mathematical content of a `ParseError`.
pub enum ErrorView {
    Malformed(Seq<char>),
    Duplicate((Seq<char>, Seq<char>, Seq<char>)),
}

impl View for ParseError {
    type V = ErrorView;

    open spec fn view(&self) -> ErrorView {
        match self {
            ParseError::MalformedKeyCode { text } => ErrorView::Malformed(text@),
            ParseError::DuplicateKeyCode { key } => ErrorView::Duplicate(key@),
        }
    }
}

/// The diagnostic for an error: its kind, then the offending text or key.
pub open spec fn message_text(e: ErrorView) -> Seq<char> {
    match e {
        ErrorView::Malformed(text) => "malformed key code: "@ + text,
        ErrorView::Duplicate(k) => "duplicate key code: "@ + k.0 + "-"@ + k.1 + "-"@ + k.2,
    }
}

impl ParseError {
    /// Says whether the key code was malformed or repeated, and names the text or key.
    pub fn message(&self) -> (r: String)
        ensures
            r@ == message_text(self@),
    {
        match self {
            ParseError::MalformedKeyCode { text } => {
                String::from_str("malformed key code: ").concat(text.as_str())
            },
            ParseError::DuplicateKeyCode { key } => {
                String::from_str("duplicate key code: ").concat(key.section().as_str()).concat(
                    "-",
                ).concat(key.block().as_str()).concat("-").concat(key.lot().as_str())
            },
        }
    }
}

} // verus!
