use vstd::prelude::*;

verus! {

/// Why a push was turned down. Every error ends the invocation: nothing is
/// retried and nothing that was already done is taken back.
#[derive(Debug, PartialEq, Eq)]
pub enum Error {
    /// The input ends before the bytes that a frame announces.
    Truncated,
    /// A length header that is not four lowercase hexadecimal digits, or that
    /// announces a frame shorter than its own header.
    MalformedLength,
    /// A frame whose payload is not UTF-8 text.
    InvalidEncoding,
    /// The negotiation did not open with the `version` key.
    ProtocolError,
    /// The peer speaks another protocol version than 1. Holds the version it
    /// named, or nothing where no version could be told from the capabilities.
    UnsupportedProtocolVersion(Option<Vec<u8>>),
    /// The peer did not announce the `push-options` capability.
    PushOptionsRequired,
    /// The negotiation frame was not followed by a flush frame.
    ExpectedFlushPkt,
    /// A command without its old or its new object id.
    ExpectedOID,
    /// A command without a ref name.
    ExpectedRef,
    /// An object id that is not forty lowercase hexadecimal digits.
    InvalidSHA,
    /// The pull id counter has reached the largest 64-bit value.
    OverflowPullID,
    /// A ref could not be set to its new object id.
    RefUpdateFailed,
}

/// An [`Error`] as contracts speak of it: the same cases over mathematical
/// sequences.
pub enum ErrorView {
    Truncated,
    MalformedLength,
    InvalidEncoding,
    ProtocolError,
    UnsupportedProtocolVersion(Option<Seq<u8>>),
    PushOptionsRequired,
    ExpectedFlushPkt,
    ExpectedOID,
    ExpectedRef,
    InvalidSHA,
    OverflowPullID,
    RefUpdateFailed,
}

impl View for Error {
    type V = ErrorView;

    open spec fn view(&self) -> ErrorView {
        match self {
            Error::Truncated => ErrorView::Truncated,
            Error::MalformedLength => ErrorView::MalformedLength,
            Error::InvalidEncoding => ErrorView::InvalidEncoding,
            Error::ProtocolError => ErrorView::ProtocolError,
            Error::UnsupportedProtocolVersion(Some(version)) => ErrorView::UnsupportedProtocolVersion(
                Some(version@),
            ),
            Error::UnsupportedProtocolVersion(None) => ErrorView::UnsupportedProtocolVersion(None),
            Error::PushOptionsRequired => ErrorView::PushOptionsRequired,
            Error::ExpectedFlushPkt => ErrorView::ExpectedFlushPkt,
            Error::ExpectedOID => ErrorView::ExpectedOID,
            Error::ExpectedRef => ErrorView::ExpectedRef,
            Error::InvalidSHA => ErrorView::InvalidSHA,
            Error::OverflowPullID => ErrorView::OverflowPullID,
            Error::RefUpdateFailed => ErrorView::RefUpdateFailed,
        }
    }
}

} // verus!
