//! The error type shared by every module.

use vstd::prelude::*;

verus! {

/// What went wrong, with a message for the operator.
#[derive(Debug)]
pub enum EdgepackError {
    /// A media structure could not be parsed.
    MediaParse(String),
    /// A media segment could not be rewritten.
    SegmentRewrite(String),
    /// Key material or ciphertext was unusable.
    Encryption(String),
    /// A manifest could not be parsed or rendered.
    Manifest(String),
}

/// The mathematical content of an [`EdgepackError`].
pub enum ErrorView {
    MediaParse(Seq<char>),
    SegmentRewrite(Seq<char>),
    Encryption(Seq<char>),
    Manifest(Seq<char>),
}

impl ErrorView {
    /// The message that the error carries.
    pub open spec fn text(self) -> Seq<char> {
        match self {
            ErrorView::MediaParse(m) => m,
            ErrorView::SegmentRewrite(m) => m,
            ErrorView::Encryption(m) => m,
            ErrorView::Manifest(m) => m,
        }
    }
}

impl View for EdgepackError {
    type V = ErrorView;

    open spec fn view(&self) -> ErrorView {
        match self {
            EdgepackError::MediaParse(m) => ErrorView::MediaParse(m@),
            EdgepackError::SegmentRewrite(m) => ErrorView::SegmentRewrite(m@),
            EdgepackError::Encryption(m) => ErrorView::Encryption(m@),
            EdgepackError::Manifest(m) => ErrorView::Manifest(m@),
        }
    }
}

impl EdgepackError {
    /// A parse error with the given message.
    pub fn media_parse(message: &str) -> (e: EdgepackError)
        ensures
            e@ == ErrorView::MediaParse(message@),
    {
        EdgepackError::MediaParse(message.to_owned())
    }

    /// A segment error with the given message.
    pub fn segment_rewrite(message: &str) -> (e: EdgepackError)
        ensures
            e@ == ErrorView::SegmentRewrite(message@),
    {
        EdgepackError::SegmentRewrite(message.to_owned())
    }

    /// An encryption error with the given message.
    pub fn encryption(message: &str) -> (e: EdgepackError)
        ensures
            e@ == ErrorView::Encryption(message@),
    {
        EdgepackError::Encryption(message.to_owned())
    }

    /// A manifest error with the given message.
    pub fn manifest(message: &str) -> (e: EdgepackError)
        ensures
            e@ == ErrorView::Manifest(message@),
    {
        EdgepackError::Manifest(message.to_owned())
    }

    /// The message that the error carries.
    pub fn to_string(&self) -> (text: String)
        ensures
            text@ == self@.text(),
    {
        match self {
            EdgepackError::MediaParse(m) => m.clone(),
            EdgepackError::SegmentRewrite(m) => m.clone(),
            EdgepackError::Encryption(m) => m.clone(),
            EdgepackError::Manifest(m) => m.clone(),
        }
    }
}

} // verus!
