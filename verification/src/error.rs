//! The error type of every fallible operation.

use vstd::prelude::*;
use vstd::string::*;

verus! {

/// Why an operation failed, with a message for the user.
#[derive(Debug)]
pub enum AppError {
    /// The underlying storage failed.
    Io(String),
    /// A source could not be read as contacts, or a request named none or
    /// more than one of them.
    Parse(String),
    /// An input was rejected.
    Validation(String),
    /// A remote peer refused or could not be reached.
    Network(String),
}

/// An error with its message as characters.
pub enum ErrorView {
    Io(Seq<char>),
    Parse(Seq<char>),
    Validation(Seq<char>),
    Network(Seq<char>),
}

impl View for AppError {
    type V = ErrorView;

    open spec fn view(&self) -> ErrorView {
        match self {
            AppError::Io(m) => ErrorView::Io(m@),
            AppError::Parse(m) => ErrorView::Parse(m@),
            AppError::Validation(m) => ErrorView::Validation(m@),
            AppError::Network(m) => ErrorView::Network(m@),
        }
    }
}

/// The line shown for an error: its kind, then its message.
pub open spec fn described(e: ErrorView) -> Seq<char> {
    match e {
        ErrorView::Io(m) => "I/O error: "@ + m,
        ErrorView::Parse(m) => "Parse error: "@ + m,
        ErrorView::Validation(m) => "Validation failed: "@ + m,
        ErrorView::Network(m) => "Network error: "@ + m,
    }
}

impl AppError {
    /// The line shown for this error.
    pub fn describe(&self) -> (r: String)
        ensures
            r@ == described(self@),
    {
        match self {
            AppError::Io(m) => String::from_str("I/O error: ").concat(m.as_str()),
            AppError::Parse(m) => String::from_str("Parse error: ").concat(m.as_str()),
            AppError::Validation(m) => String::from_str("Validation failed: ").concat(m.as_str()),
            AppError::Network(m) => String::from_str("Network error: ").concat(m.as_str()),
        }
    }
}

} // verus!
