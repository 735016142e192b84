//! Why a frame could not be parsed.

use vstd::prelude::*;

verus! {

/// The ways in which the front of a buffer fails to be a RESP frame.
#[derive(Debug, Clone, Copy, PartialEq, Eq, Structural)]
pub enum ParseError {
    /// The buffer is empty where a frame was expected.
    EmptyArg,
    /// The first byte is none of `:`, `+`, `$` and `*`.
    InvalidArgPrefix,
    /// A simple string does not start with `+`.
    InvalidSimpleString,
    /// A simple string has no CRLF after its text.
    IncompleteSimpleString,
    /// Text that must be UTF-8 is not.
    InvalidUtf8,
    /// An integer frame is shorter than four bytes or does not start with `:`.
    InvalidIntegerPrefix,
    /// An integer frame has no CRLF after its digits.
    InvalidIntegerInput,
    /// The text of an integer frame is not a decimal `i64`.
    InvalidInteger,
    /// A bulk string does not start with `$`.
    NoBulkStringCode,
    /// The length of a bulk string or an array is not a decimal `usize`.
    InvalidLength,
    /// A bulk string announces more bytes than the buffer holds.
    BulkStringTooLong,
    /// A bulk string's content is not followed by CRLF.
    MissingBulkStringCrlf,
    /// Fewer than two bytes are left where a line was expected.
    BufTooShortForCrlf,
    /// A line has no CRLF.
    NoCrlf,
    /// An array does not start with `*`.
    NoArrayPrefix,
}

} // verus!
