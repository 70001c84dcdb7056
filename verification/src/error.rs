//! The errors that the library reports.

use crate::text::texts;
use vstd::prelude::*;
use vstd::string::StringExecFns;

verus! {

/// What can go wrong while a path is resolved or a batch of subscription
/// updates is prepared and applied.
#[derive(Debug, PartialEq, Eq)]
pub enum MyError {
    /// The remote service failed; the text is its report.
    ApiError(String),
    /// A path segment names no child of the channel it was looked up in.
    ChannelNotFound(String),
    /// `..` was asked for at the top of the hierarchy.
    NoParent,
    /// A subscription level other than 0, 1 or 2.
    InvalidLevel,
    /// Some updates of a batch were refused; the ids of their channels, in
    /// the order of the batch.
    BatchPartialFailure(Vec<String>),
    /// An access token that is not as long as a token is.
    InvalidToken,
}

/// A `MyError` with its texts as sequences of characters.
pub enum ErrorView {
    ApiError(Seq<char>),
    ChannelNotFound(Seq<char>),
    NoParent,
    InvalidLevel,
    BatchPartialFailure(Seq<Seq<char>>),
    InvalidToken,
}

impl View for MyError {
    type V = ErrorView;

    open spec fn view(&self) -> ErrorView {
        match self {
            MyError::ApiError(text) => ErrorView::ApiError(text@),
            MyError::ChannelNotFound(name) => ErrorView::ChannelNotFound(name@),
            MyError::NoParent => ErrorView::NoParent,
            MyError::InvalidLevel => ErrorView::InvalidLevel,
            MyError::BatchPartialFailure(ids) => ErrorView::BatchPartialFailure(texts(ids@)),
            MyError::InvalidToken => ErrorView::InvalidToken,
        }
    }
}

impl ErrorView {
    /// The one-line text that describes the error.
    pub open spec fn message(self) -> Seq<char> {
        match self {
            ErrorView::ApiError(text) => text,
            ErrorView::ChannelNotFound(name) => name + " is not found"@,
            ErrorView::NoParent => "parent is not exists"@,
            ErrorView::InvalidLevel => "subscribe level must be 0, 1 or 2"@,
            ErrorView::BatchPartialFailure(_) => "some error occurred"@,
            ErrorView::InvalidToken => "invalid token length"@,
        }
    }
}

impl MyError {
    /// The one-line text that describes the error.
    pub fn message(&self) -> (text: String)
        ensures
            text@ == self@.message(),
    {
        match self {
            MyError::ApiError(text) => text.clone(),
            MyError::ChannelNotFound(name) => name.clone().concat(" is not found"),
            MyError::NoParent => String::from_str("parent is not exists"),
            MyError::InvalidLevel => String::from_str("subscribe level must be 0, 1 or 2"),
            MyError::BatchPartialFailure(_) => String::from_str("some error occurred"),
            MyError::InvalidToken => String::from_str("invalid token length"),
        }
    }
}

} // verus!
