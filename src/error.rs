use vstd::prelude::*;

verus! {

/// Why a text could not be parsed.
#[derive(Debug, PartialEq)]
pub enum Error {
    /// The text holds a malformed lexeme.
    Tokenize(crate::tokenizer::Error),
    /// The tokens do not form a value.
    Parse(crate::parser::ParseError),
}

/// Why a text could not be parsed, as a mathematical value.
pub enum ErrorView {
    Tokenize(crate::tokenizer::ErrorView),
    Parse(crate::parser::ParseError),
}

impl View for Error {
    type V = ErrorView;

    open spec fn view(&self) -> ErrorView {
        match self {
            Error::Tokenize(e) => ErrorView::Tokenize(e@),
            Error::Parse(e) => ErrorView::Parse(*e),
        }
    }
}

} // verus!
