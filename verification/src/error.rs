//! The library's error type.
use vstd::prelude::*;
use crate::text::{chars_of, string_of};

verus! {

/// Why an operation did not succeed.
#[derive(Debug)]
pub enum Error {
    /// A failure described by a message.
    Message(String),
    /// The user chose to restore nothing.
    Cancelled,
    /// A selection of entries could not be understood.
    InvalidSelection(String),
}

/// The content of an [`Error`].
pub enum ErrorView {
    Message(Seq<char>),
    Cancelled,
    InvalidSelection(Seq<char>),
}

impl View for Error {
    type V = ErrorView;

    open spec fn view(&self) -> ErrorView {
        match self {
            Error::Message(m) => ErrorView::Message(m@),
            Error::Cancelled => ErrorView::Cancelled,
            Error::InvalidSelection(m) => ErrorView::InvalidSelection(m@),
        }
    }
}

/// The content of a result whose error is an [`Error`].
pub open spec fn result_view<T>(r: Result<T, Error>) -> Result<T, ErrorView> {
    match r {
        Ok(v) => Ok(v),
        Err(e) => Err(e@),
    }
}

/// The text shown for an error.
pub open spec fn error_text(e: ErrorView) -> Seq<char> {
    match e {
        ErrorView::Message(m) => m,
        ErrorView::Cancelled => "No files were restored"@,
        ErrorView::InvalidSelection(m) => m,
    }
}

impl Error {
    /// An error described by `message`.
    pub fn message(message: &str) -> (e: Error)
        ensures
            e@ == ErrorView::Message(message@),
    {
        Error::Message(string_of(chars_of(message).as_slice()))
    }

    /// The text shown for this error.
    pub fn text(&self) -> (out: String)
        ensures
            out@ == error_text(self@),
    {
        match self {
            Error::Message(m) => string_of(chars_of(m.as_str()).as_slice()),
            Error::Cancelled => string_of(chars_of("No files were restored").as_slice()),
            Error::InvalidSelection(m) => string_of(chars_of(m.as_str()).as_slice()),
        }
    }
}

} // verus!
