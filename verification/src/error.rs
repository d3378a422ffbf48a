//! The one way a parse can fail.

use vstd::prelude::*;

verus! {

/// What was wrong with the input at the point where the parse stopped.
#[derive(Clone, Copy, Debug, PartialEq, Eq, Structural)]
pub enum ErrorKind {
    /// The tokenizer could not read a token, or a `field` tag holds an
    /// attribute that cannot be read.
    MalformedMarkup,
    /// The text of an open, known field cannot be unescaped and decoded.
    InvalidText,
}

/// A fatal parse failure. No rows are returned together with it.
#[derive(Clone, Copy, Debug, PartialEq, Eq, Structural)]
pub struct ParseError {
    /// Byte offset in the input that the tokenizer reports for the failure.
    pub offset: usize,
    /// What failed there.
    pub kind: ErrorKind,
}

} // verus!
