//! Error values of the rewriter.

use vstd::prelude::*;

verus! {

/// Rejection of the `encoding` label of the settings.
#[derive(Debug, PartialEq, Eq, Clone, Copy, Structural)]
pub enum EncodingError {
    /// The label names no encoding of the Encoding Standard.
    UnknownEncoding,
    /// The label names an encoding in which ASCII bytes do not stand for ASCII
    /// characters (`UTF-16LE`, `UTF-16BE`, `ISO-2022-JP`).
    NonAsciiCompatibleEncoding,
}

impl EncodingError {
    /// The text of the message for this error.
    pub open spec fn message_text(self) -> Seq<char> {
        match self {
            EncodingError::UnknownEncoding => "Unknown character encoding has been provided."@,
            EncodingError::NonAsciiCompatibleEncoding => "Expected ASCII-compatible encoding."@,
        }
    }

    /// A human readable description of the error.
    pub fn message(&self) -> (r: String)
        ensures
            r@ == self.message_text(),
    {
        match self {
            EncodingError::UnknownEncoding => {
                "Unknown character encoding has been provided.".to_owned()
            },
            EncodingError::NonAsciiCompatibleEncoding => {
                "Expected ASCII-compatible encoding.".to_owned()
            },
        }
    }
}

/// The memory budget of the rewriter would have been exceeded.
#[derive(Debug, PartialEq, Eq, Clone, Copy, Structural)]
pub struct MemoryLimitExceededError;

impl MemoryLimitExceededError {
    /// A human readable description of the error.
    pub fn message(&self) -> (r: String)
        ensures
            r@ == "The memory limit has been exceeded."@,
    {
        "The memory limit has been exceeded.".to_owned()
    }
}

/// Strict mode met markup that a streaming rewriter cannot interpret with
/// certainty.
#[derive(Debug, PartialEq, Eq, Clone, Copy, Structural)]
pub struct ParsingAmbiguityError;

impl ParsingAmbiguityError {
    /// A human readable description of the error.
    pub fn message(&self) -> (r: String)
        ensures
            r@ == "The parser has encountered ambiguous markup."@,
    {
        "The parser has encountered ambiguous markup.".to_owned()
    }
}

/// An error returned by a content handler. The rewriter carries it through
/// unchanged.
#[derive(Debug)]
pub struct HandlerError {
    message: String,
}

impl HandlerError {
    /// The text the error was made with.
    pub closed spec fn view(&self) -> Seq<char> {
        self.message@
    }

    /// An error that carries `message`.
    pub fn new(message: &str) -> (r: HandlerError)
        ensures
            r@ == message@,
    {
        HandlerError { message: message.to_owned() }
    }

    /// The text the error was made with.
    pub fn message(&self) -> (r: String)
        ensures
            r@ == self@,
    {
        self.message.clone()
    }
}

/// What kind of failure a [`RewritingError`] reports.
#[derive(Debug, PartialEq, Eq, Clone, Copy, Structural)]
pub enum ErrorKind {
    MemoryLimitExceeded,
    ParsingAmbiguity,
    ContentHandlerError,
}

/// A fatal error of `write` or `end`. The rewriter must not be used after it.
#[derive(Debug)]
pub enum RewritingError {
    /// See [`MemoryLimitExceededError`].
    MemoryLimitExceeded(MemoryLimitExceededError),
    /// See [`ParsingAmbiguityError`].
    ParsingAmbiguity(ParsingAmbiguityError),
    /// An error that a content handler returned.
    ContentHandlerError(HandlerError),
}

impl RewritingError {
    /// The kind of this error.
    pub open spec fn kind_of(&self) -> ErrorKind {
        match self {
            RewritingError::MemoryLimitExceeded(_) => ErrorKind::MemoryLimitExceeded,
            RewritingError::ParsingAmbiguity(_) => ErrorKind::ParsingAmbiguity,
            RewritingError::ContentHandlerError(_) => ErrorKind::ContentHandlerError,
        }
    }

    /// The kind of this error.
    #[verifier::when_used_as_spec(kind_of)]
    pub fn kind(&self) -> (r: ErrorKind)
        ensures
            r == self.kind_of(),
    {
        match self {
            RewritingError::MemoryLimitExceeded(_) => ErrorKind::MemoryLimitExceeded,
            RewritingError::ParsingAmbiguity(_) => ErrorKind::ParsingAmbiguity,
            RewritingError::ContentHandlerError(_) => ErrorKind::ContentHandlerError,
        }
    }

    /// The message of the error this value wraps.
    pub open spec fn message_text(&self) -> Seq<char> {
        match self {
            RewritingError::MemoryLimitExceeded(_) => "The memory limit has been exceeded."@,
            RewritingError::ParsingAmbiguity(_) => "The parser has encountered ambiguous markup."@,
            RewritingError::ContentHandlerError(e) => e@,
        }
    }

    /// A human readable description: that of the wrapped error.
    pub fn message(&self) -> (r: String)
        ensures
            r@ == self.message_text(),
    {
        match self {
            RewritingError::MemoryLimitExceeded(e) => e.message(),
            RewritingError::ParsingAmbiguity(e) => e.message(),
            RewritingError::ContentHandlerError(e) => e.message(),
        }
    }
}

/// The kind of the failure of a step, if it has failed.
pub open spec fn fault_of(r: Result<(), RewritingError>) -> Option<ErrorKind> {
    match r {
        Ok(_) => None,
        Err(e) => Some(e.kind_of()),
    }
}

} // verus!
