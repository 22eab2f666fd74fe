//! The error values of the library.

use vstd::prelude::*;

verus! {

/// An output format, line width or line-break style that could not be read.
#[derive(Debug, Clone, Copy, PartialEq, Eq, Structural)]
pub struct ParseFormatError;

impl ParseFormatError {
    /// The text shown for this error.
    pub fn to_string(&self) -> (s: String)
        ensures
            s@ == "unrecognized license format"@,
    {
        String::from_str("unrecognized license format")
    }
}

/// A list of output paths that could not be read.
#[derive(Debug, Clone, Copy, PartialEq, Eq, Structural)]
pub struct ParsePathError;

impl ParsePathError {
    /// The text shown for this error.
    pub fn to_string(&self) -> (s: String)
        ensures
            s@ == "unrecognized path"@,
    {
        String::from_str("unrecognized path")
    }
}

/// Why rendering a document stopped. Every kind ends the render; what was
/// written to the sink before it stays there.
#[derive(Debug, Clone, Copy, PartialEq, Eq, Structural)]
pub enum RenderError {
    /// The markup reader found bytes that are not well-formed markup.
    MarkupSyntax,
    /// The chosen output encoding has no rendering yet.
    UnimplementedEncoding,
    /// The stream ended inside an element whose end a writer was waiting for.
    UnterminatedElement,
}

impl RenderError {
    /// The text shown for this error.
    pub fn to_string(&self) -> (s: String)
        ensures
            s@ == match *self {
                RenderError::MarkupSyntax => "malformed markup"@,
                RenderError::UnimplementedEncoding => "output encoding is not implemented"@,
                RenderError::UnterminatedElement => "markup ends inside an unfinished element"@,
            },
    {
        match self {
            RenderError::MarkupSyntax => String::from_str("malformed markup"),
            RenderError::UnimplementedEncoding => String::from_str(
                "output encoding is not implemented",
            ),
            RenderError::UnterminatedElement => String::from_str(
                "markup ends inside an unfinished element",
            ),
        }
    }
}

} // verus!
