//! Errors of parsing.
use vstd::prelude::*;

use crate::text::push_all;

verus! {

/// What went wrong while parsing, with a message.
#[derive(Debug, Clone, PartialEq, Eq)]
pub enum ParseError {
    BadNumberOfArguments(String),
    FileError(String),
    MissingArgument(String),
    SyntaxError(String),
    UnknownInstruction(String),
}

/// The kind of a parse error and the text that it carries.
pub enum ParseErrorView {
    BadNumberOfArguments(Seq<char>),
    FileError(Seq<char>),
    MissingArgument(Seq<char>),
    SyntaxError(Seq<char>),
    UnknownInstruction(Seq<char>),
}

impl View for ParseError {
    type V = ParseErrorView;

    open spec fn view(&self) -> ParseErrorView {
        match self {
            ParseError::BadNumberOfArguments(m) => ParseErrorView::BadNumberOfArguments(m@),
            ParseError::FileError(m) => ParseErrorView::FileError(m@),
            ParseError::MissingArgument(m) => ParseErrorView::MissingArgument(m@),
            ParseError::SyntaxError(m) => ParseErrorView::SyntaxError(m@),
            ParseError::UnknownInstruction(m) => ParseErrorView::UnknownInstruction(m@),
        }
    }
}

/// The text shown for an error: a heading for its kind, then its message.
pub open spec fn error_text(e: ParseErrorView) -> Seq<char> {
    match e {
        ParseErrorView::BadNumberOfArguments(m) => "Wrong number of arguments: "@ + m,
        ParseErrorView::FileError(m) => "File error: "@ + m,
        ParseErrorView::MissingArgument(m) => "Missing argument: "@ + m,
        ParseErrorView::SyntaxError(m) => "Syntax error: "@ + m,
        ParseErrorView::UnknownInstruction(m) => "Unknown instruction: "@ + m,
    }
}

impl ParseError {
    /// The text shown for this error.
    pub fn to_string(&self) -> (r: String)
        ensures
            r@ == error_text(self@),
    {
        let mut r = String::new();
        let m = match self {
            ParseError::BadNumberOfArguments(m) => {
                push_all(&mut r, "Wrong number of arguments: ");
                m
            },
            ParseError::FileError(m) => {
                push_all(&mut r, "File error: ");
                m
            },
            ParseError::MissingArgument(m) => {
                push_all(&mut r, "Missing argument: ");
                m
            },
            ParseError::SyntaxError(m) => {
                push_all(&mut r, "Syntax error: ");
                m
            },
            ParseError::UnknownInstruction(m) => {
                push_all(&mut r, "Unknown instruction: ");
                m
            },
        };
        push_all(&mut r, m.as_str());
        assert(r@ =~= error_text(self@));
        r
    }
}

} // verus!
