//! Error types shared across the engine.
use vstd::prelude::*;
use vstd::string::*;

use crate::encoding::text::{
    decimal, decimal_string, ends_with, padded, padded_string, starts_with,
};

verus! {

/// Result alias used throughout the library.
pub type Result<T> = core::result::Result<T, Error>;

/// Broad category of an I/O failure.
#[derive(Debug, Clone, Copy, PartialEq, Eq, Structural)]
pub enum IoErrorKind {
    /// The named file does not exist.
    NotFound,
    /// An argument of the operation is out of range.
    InvalidInput,
    /// The file ended before the requested bytes.
    UnexpectedEof,
    /// The caller may not touch that path.
    PermissionDenied,
    /// The operation is not available on this file.
    Unsupported,
    /// A write ended before all bytes were taken.
    WriteZero,
    /// The operation would have to wait.
    WouldBlock,
    /// Anything else the operating system reports.
    Other,
}

/// An I/O failure: its category and a message for people.
#[derive(Debug)]
pub struct IoError {
    /// What went wrong, in one word.
    pub kind: IoErrorKind,
    /// What went wrong, in a sentence.
    pub message: String,
}

impl IoError {
    /// Build an I/O error.
    pub fn new(kind: IoErrorKind, message: &str) -> (e: IoError)
        ensures
            e.kind == kind,
            e.message@ == message@,
    {
        IoError { kind, message: message.to_owned() }
    }
}

/// Decode-time error categories.
#[derive(Debug, Clone, Copy, PartialEq, Eq, Structural)]
#[non_exhaustive]
pub enum DecodeError {
    /// The input ran out before a complete value could be decoded.
    UnexpectedEof {
        /// Number of bytes still required.
        needed: usize,
    },
    /// A varint encoding occupied more bytes than the type allows.
    VarintOverflow {
        /// Maximum legal length for this varint width.
        max_bytes: usize,
    },
    /// A varint had a non-canonical encoding (trailing zero continuation byte).
    NonCanonicalVarint,
}

impl DecodeError {
    /// The error as a sentence.
    pub open spec fn text(self) -> Seq<char> {
        match self {
            DecodeError::UnexpectedEof { needed } => "unexpected end of input: needed "@ + decimal(
                needed as nat,
            ) + " more bytes"@,
            DecodeError::VarintOverflow { max_bytes } => "varint overflow: encoding exceeds "@
                + decimal(max_bytes as nat) + " bytes"@,
            DecodeError::NonCanonicalVarint => "non-canonical varint encoding"@,
        }
    }

    /// The error as a sentence.
    pub fn to_string(&self) -> (s: String)
        ensures
            s@ == self.text(),
    {
        let mut s: String = String::new();
        match self {
            DecodeError::UnexpectedEof { needed } => {
                s.append("unexpected end of input: needed ");
                s.append(decimal_string(*needed as u64).as_str());
                s.append(" more bytes");
            },
            DecodeError::VarintOverflow { max_bytes } => {
                s.append("varint overflow: encoding exceeds ");
                s.append(decimal_string(*max_bytes as u64).as_str());
                s.append(" bytes");
            },
            DecodeError::NonCanonicalVarint => {
                s.append("non-canonical varint encoding");
            },
        }
        assert(s@ =~= self.text());
        s
    }
}

/// Top-level engine error.
///
/// Errors are fine-grained so that recovery paths can match on specific
/// failure modes.
#[derive(Debug)]
#[non_exhaustive]
pub enum Error {
    /// Underlying I/O failure.
    Io(IoError),
    /// A varint or fixed-width integer could not be decoded.
    Decode(DecodeError),
    /// A checksum did not match the stored value.
    ChecksumMismatch {
        /// Where the mismatch was detected.
        context: &'static str,
        /// Checksum value stored on disk.
        expected: u64,
        /// Checksum computed from the data just read.
        found: u64,
    },
    /// File header has an unexpected magic number, version, or shape.
    InvalidFormat {
        /// Short context, typically the file or block kind.
        context: &'static str,
        /// Human-readable explanation.
        reason: String,
    },
    /// The engine encountered data it knows is corrupted.
    Corruption {
        /// File, block or record context for diagnostics.
        context: &'static str,
        /// Description of what went wrong.
        reason: String,
    },
    /// Caller violated an API invariant.
    InvalidArgument(&'static str),
    /// The engine has been shut down and cannot accept new work.
    Shutdown,
}

/// What an [`Error`] says, with its texts as character sequences.
pub enum ErrorView {
    /// See [`Error::Io`].
    Io { kind: IoErrorKind, message: Seq<char> },
    /// See [`Error::Decode`].
    Decode(DecodeError),
    /// See [`Error::ChecksumMismatch`].
    ChecksumMismatch { context: Seq<char>, expected: u64, found: u64 },
    /// See [`Error::InvalidFormat`].
    InvalidFormat { context: Seq<char>, reason: Seq<char> },
    /// See [`Error::Corruption`].
    Corruption { context: Seq<char>, reason: Seq<char> },
    /// See [`Error::InvalidArgument`].
    InvalidArgument(Seq<char>),
    /// See [`Error::Shutdown`].
    Shutdown,
}

impl View for Error {
    type V = ErrorView;

    open spec fn view(&self) -> ErrorView {
        match *self {
            Error::Io(e) => ErrorView::Io { kind: e.kind, message: e.message@ },
            Error::Decode(e) => ErrorView::Decode(e),
            Error::ChecksumMismatch { context, expected, found } => ErrorView::ChecksumMismatch {
                context: context@,
                expected,
                found,
            },
            Error::InvalidFormat { context, reason } => ErrorView::InvalidFormat {
                context: context@,
                reason: reason@,
            },
            Error::Corruption { context, reason } => ErrorView::Corruption {
                context: context@,
                reason: reason@,
            },
            Error::InvalidArgument(what) => ErrorView::InvalidArgument(what@),
            Error::Shutdown => ErrorView::Shutdown,
        }
    }
}

impl ErrorView {
    /// The error as a sentence.
    pub open spec fn text(self) -> Seq<char> {
        match self {
            ErrorView::Io { kind, message } => "io: "@ + message,
            ErrorView::Decode(e) => "decode: "@ + e.text(),
            ErrorView::ChecksumMismatch { context, expected, found } => "checksum mismatch in "@
                + context + ": expected 0x"@ + padded(expected as nat, 16, 8) + ", found 0x"@
                + padded(found as nat, 16, 8),
            ErrorView::InvalidFormat { context, reason } => "invalid format in "@ + context + ": "@
                + reason,
            ErrorView::Corruption { context, reason } => "corruption in "@ + context + ": "@
                + reason,
            ErrorView::InvalidArgument(what) => "invalid argument: "@ + what,
            ErrorView::Shutdown => "engine is shut down"@,
        }
    }
}

/// Law: the sentence of an error begins with what went wrong and where, and ends with
/// the reason that it was given; of two checksums, the stored one comes first.
pub proof fn law_text_tells_the_error(e: ErrorView)
    ensures
        match e {
            ErrorView::Io { kind, message } => starts_with(e.text(), "io: "@) && ends_with(
                e.text(),
                message,
            ),
            ErrorView::Decode(d) => starts_with(e.text(), "decode: "@) && ends_with(
                e.text(),
                d.text(),
            ),
            ErrorView::ChecksumMismatch { context, expected, found } => starts_with(
                e.text(),
                "checksum mismatch in "@ + context + ": expected 0x"@ + padded(
                    expected as nat,
                    16,
                    8,
                ),
            ) && ends_with(e.text(), ", found 0x"@ + padded(found as nat, 16, 8)),
            ErrorView::InvalidFormat { context, reason } => starts_with(
                e.text(),
                "invalid format in "@ + context,
            ) && ends_with(e.text(), reason),
            ErrorView::Corruption { context, reason } => starts_with(
                e.text(),
                "corruption in "@ + context,
            ) && ends_with(e.text(), reason),
            ErrorView::InvalidArgument(what) => starts_with(e.text(), "invalid argument: "@)
                && ends_with(e.text(), what),
            ErrorView::Shutdown => e.text() == "engine is shut down"@,
        },
{
    let t = e.text();
    let n = t.len() as int;
    match e {
        ErrorView::Io { kind, message } => {
            let front = "io: "@;
            assert(t.subrange(0, front.len() as int) =~= front);
            assert(t.subrange(n - message.len(), n) =~= message);
        },
        ErrorView::Decode(d) => {
            let front = "decode: "@;
            assert(t.subrange(0, front.len() as int) =~= front);
            assert(t.subrange(n - d.text().len(), n) =~= d.text());
        },
        ErrorView::ChecksumMismatch { context, expected, found } => {
            let front = "checksum mismatch in "@ + context + ": expected 0x"@ + padded(
                expected as nat,
                16,
                8,
            );
            let back = ", found 0x"@ + padded(found as nat, 16, 8);
            assert(t =~= front + back);
            assert(t.subrange(0, front.len() as int) =~= front);
            assert(t.subrange(n - back.len(), n) =~= back);
        },
        ErrorView::InvalidFormat { context, reason } => {
            let front = "invalid format in "@ + context;
            assert(t.subrange(0, front.len() as int) =~= front);
            assert(t.subrange(n - reason.len(), n) =~= reason);
        },
        ErrorView::Corruption { context, reason } => {
            let front = "corruption in "@ + context;
            assert(t.subrange(0, front.len() as int) =~= front);
            assert(t.subrange(n - reason.len(), n) =~= reason);
        },
        ErrorView::InvalidArgument(what) => {
            let front = "invalid argument: "@;
            assert(t.subrange(0, front.len() as int) =~= front);
            assert(t.subrange(n - what.len(), n) =~= what);
        },
        ErrorView::Shutdown => {},
    }
}

/// The view of an invalid-format error with the given texts.
pub open spec fn invalid_format(context: Seq<char>, reason: Seq<char>) -> ErrorView {
    ErrorView::InvalidFormat { context, reason }
}

/// The view of a corruption error with the given texts.
pub open spec fn corruption(context: Seq<char>, reason: Seq<char>) -> ErrorView {
    ErrorView::Corruption { context, reason }
}

impl Error {
    /// Build an [`Error::InvalidFormat`] from fixed texts.
    pub fn invalid_format_static(context: &'static str, reason: &'static str) -> (e: Error)
        ensures
            e@ == invalid_format(context@, reason@),
    {
        Error::InvalidFormat { context, reason: reason.to_owned() }
    }

    /// Build an [`Error::Corruption`] from fixed texts.
    pub fn corruption_static(context: &'static str, reason: &'static str) -> (e: Error)
        ensures
            e@ == corruption(context@, reason@),
    {
        Error::Corruption { context, reason: reason.to_owned() }
    }

    /// The error as a sentence.
    pub fn to_string(&self) -> (s: String)
        ensures
            s@ == self@.text(),
    {
        let mut s: String = String::new();
        match self {
            Error::Io(e) => {
                s.append("io: ");
                s.append(e.message.as_str());
            },
            Error::Decode(e) => {
                s.append("decode: ");
                s.append(e.to_string().as_str());
            },
            Error::ChecksumMismatch { context, expected, found } => {
                s.append("checksum mismatch in ");
                s.append(*context);
                s.append(": expected 0x");
                s.append(padded_string(*expected, 16, 8).as_str());
                s.append(", found 0x");
                s.append(padded_string(*found, 16, 8).as_str());
            },
            Error::InvalidFormat { context, reason } => {
                s.append("invalid format in ");
                s.append(*context);
                s.append(": ");
                s.append(reason.as_str());
            },
            Error::Corruption { context, reason } => {
                s.append("corruption in ");
                s.append(*context);
                s.append(": ");
                s.append(reason.as_str());
            },
            Error::InvalidArgument(what) => {
                s.append("invalid argument: ");
                s.append(*what);
            },
            Error::Shutdown => {
                s.append("engine is shut down");
            },
        }
        assert(s@ =~= self@.text());
        s
    }

    /// Build an [`Error::Io`] from a category and a fixed message.
    pub fn io(kind: IoErrorKind, message: &str) -> (e: Error)
        ensures
            e@ == (ErrorView::Io { kind, message: message@ }),
    {
        Error::Io(IoError::new(kind, message))
    }
}

impl From<IoError> for Error {
    fn from(e: IoError) -> (r: Error) {
        Error::Io(e)
    }
}

impl vstd::std_specs::convert::FromSpecImpl<IoError> for Error {
    open spec fn obeys_from_spec() -> bool {
        true
    }

    open spec fn from_spec(e: IoError) -> Error {
        Error::Io(e)
    }
}

impl From<DecodeError> for Error {
    fn from(e: DecodeError) -> (r: Error) {
        Error::Decode(e)
    }
}

impl vstd::std_specs::convert::FromSpecImpl<DecodeError> for Error {
    open spec fn obeys_from_spec() -> bool {
        true
    }

    open spec fn from_spec(e: DecodeError) -> Error {
        Error::Decode(e)
    }
}

} // verus!
