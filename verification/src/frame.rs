//! The meaning of RESP frames, as spec functions over the bytes of a buffer.
//!
//! Each `spec_*` function reads one kind of frame from the front of `s` and
//! gives a pair: the outcome, and how many bytes of `s` the parser consumes
//! on the way to it (on success, the whole frame; on some errors, the part
//! read before the error was found).

use vstd::prelude::*;
use vstd::utf8::{decode_utf8, valid_utf8};
use crate::decimal::{spec_parse_i64, spec_parse_usize};
use crate::error::ParseError;

verus! {

/// The value of a parsed frame.
pub enum ArgView {
    /// A simple string (`+text\r\n`): its characters.
    Str(Seq<char>),
    /// A bulk string (`$len\r\nbytes\r\n`): its bytes.
    Bulk(Seq<u8>),
    /// An integer (`:digits\r\n`).
    Int(i64),
    /// An array (`*count\r\n` and that many frames).
    Array(Seq<ArgView>),
}

pub const CR: u8 = 13;
pub const LF: u8 = 10;

/// True when `s` holds CR LF at `i` and `i + 1`.
pub open spec fn crlf_at(s: Seq<u8>, i: int) -> bool {
    0 <= i && i + 1 < s.len() && s[i] == CR && s[i + 1] == LF
}

/// The first position at or after `from` where `s` holds CR LF.
pub open spec fn find_crlf(s: Seq<u8>, from: int) -> Option<int>
    decreases s.len() - from,
{
    if from < 0 || from + 1 >= s.len() {
        None
    } else if crlf_at(s, from) {
        Some(from)
    } else {
        find_crlf(s, from + 1)
    }
}

/// `find_crlf` finds the first CR LF, and one that lies within `s`.
pub proof fn lemma_find_crlf(s: Seq<u8>, from: int)
    requires
        0 <= from,
    ensures
        find_crlf(s, from) matches Some(i) ==> from <= i && i + 2 <= s.len() && crlf_at(s, i)
            && forall|j: int| from <= j < i ==> !crlf_at(s, j),
        find_crlf(s, from) is None ==> forall|j: int| from <= j ==> !crlf_at(s, j),
    decreases s.len() - from,
{
    if from < 0 || from + 1 >= s.len() {
    } else if crlf_at(s, from) {
    } else {
        lemma_find_crlf(s, from + 1);
    }
}

/// A simple string: `+`, text up to the first CR LF, then the CR LF. The
/// text must be UTF-8. Nothing is consumed unless the frame is whole.
pub open spec fn spec_simple_string(s: Seq<u8>) -> (Result<Seq<char>, ParseError>, int) {
    if s.len() == 0 || s[0] != 43u8 {
        (Err(ParseError::InvalidSimpleString), 0)
    } else {
        match find_crlf(s, 1) {
            None => (Err(ParseError::IncompleteSimpleString), 0),
            Some(i) => {
                let text = s.subrange(1, i);
                if valid_utf8(text) {
                    (Ok(decode_utf8(text)), i + 2)
                } else {
                    (Err(ParseError::InvalidUtf8), 0)
                }
            },
        }
    }
}

/// An integer: `:`, a decimal `i64` up to the first CR LF, then the CR LF;
/// the frame takes at least four bytes. Nothing is consumed unless the frame
/// is whole.
pub open spec fn spec_integer(s: Seq<u8>) -> (Result<i64, ParseError>, int) {
    if s.len() < 4 || s[0] != 58u8 {
        (Err(ParseError::InvalidIntegerPrefix), 0)
    } else {
        match find_crlf(s, 1) {
            None => (Err(ParseError::InvalidIntegerInput), 0),
            Some(i) => {
                let text = s.subrange(1, i);
                if !valid_utf8(text) {
                    (Err(ParseError::InvalidUtf8), 0)
                } else {
                    match spec_parse_i64(text) {
                        None => (Err(ParseError::InvalidInteger), 0),
                        Some(v) => (Ok(v), i + 2),
                    }
                }
            },
        }
    }
}

/// A line: the bytes up to the first CR LF, which is consumed with them.
pub open spec fn spec_line(s: Seq<u8>) -> (Result<Seq<u8>, ParseError>, int) {
    if s.len() < 2 {
        (Err(ParseError::BufTooShortForCrlf), 0)
    } else {
        match find_crlf(s, 0) {
            None => (Err(ParseError::NoCrlf), 0),
            Some(i) => (Ok(s.take(i)), i + 2),
        }
    }
}

/// A length: a line holding a decimal `usize`. The line is consumed even
/// when its text is not a length.
pub open spec fn spec_length(s: Seq<u8>) -> (Result<usize, ParseError>, int) {
    let (line, used) = spec_line(s);
    match line {
        Err(e) => (Err(e), used),
        Ok(text) => if !valid_utf8(text) {
            (Err(ParseError::InvalidUtf8), used)
        } else {
            match spec_parse_usize(text) {
                None => (Err(ParseError::InvalidLength), used),
                Some(n) => (Ok(n), used),
            }
        },
    }
}

/// A length line consumes nothing, or a whole line of `s`.
pub proof fn lemma_length_used(s: Seq<u8>)
    ensures
        0 <= spec_length(s).1 <= s.len(),
        spec_length(s).0 is Ok ==> 2 <= spec_length(s).1,
{
    lemma_find_crlf(s, 0);
}

/// A bulk string: `$`, a length `n`, then `n` bytes of any value and a
/// CR LF. Once the `$` is seen, what was read stays consumed on error.
pub open spec fn spec_bulk_string(s: Seq<u8>) -> (Result<Seq<u8>, ParseError>, int) {
    if s.len() == 0 || s[0] != 36u8 {
        (Err(ParseError::NoBulkStringCode), 0)
    } else {
        let (len, used) = spec_length(s.drop_first());
        let pos = 1 + used;
        match len {
            Err(e) => (Err(e), pos),
            Ok(n) => {
                let rest = s.skip(pos);
                if n + 2 > rest.len() {
                    (Err(ParseError::BulkStringTooLong), pos)
                } else if !crlf_at(rest, n as int) {
                    (Err(ParseError::MissingBulkStringCrlf), pos + n)
                } else {
                    (Ok(rest.take(n as int)), pos + n + 2)
                }
            },
        }
    }
}

/// Any frame: the first byte says which kind (`:`, `+`, `$` or `*`).
pub open spec fn spec_arg(s: Seq<u8>) -> (Result<ArgView, ParseError>, int)
    decreases s.len(), 1int, 0int,
{
    if s.len() == 0 {
        (Err(ParseError::EmptyArg), 0)
    } else if s[0] == 58u8 {
        let (r, used) = spec_integer(s);
        (
            match r {
                Ok(v) => Ok(ArgView::Int(v)),
                Err(e) => Err(e),
            },
            used,
        )
    } else if s[0] == 43u8 {
        let (r, used) = spec_simple_string(s);
        (
            match r {
                Ok(t) => Ok(ArgView::Str(t)),
                Err(e) => Err(e),
            },
            used,
        )
    } else if s[0] == 36u8 {
        let (r, used) = spec_bulk_string(s);
        (
            match r {
                Ok(b) => Ok(ArgView::Bulk(b)),
                Err(e) => Err(e),
            },
            used,
        )
    } else if s[0] == 42u8 {
        spec_array(s)
    } else {
        (Err(ParseError::InvalidArgPrefix), 0)
    }
}

/// An array: `*`, a count `n`, then `n` frames back to back.
pub open spec fn spec_array(s: Seq<u8>) -> (Result<ArgView, ParseError>, int)
    decreases s.len(), 0int, 0int,
{
    if s.len() == 0 || s[0] != 42u8 {
        (Err(ParseError::NoArrayPrefix), 0)
    } else {
        let (len, used) = spec_length(s.drop_first());
        let pos = 1 + used;
        match len {
            Err(e) => (Err(e), pos),
            Ok(n) => {
                proof {
                    lemma_length_used(s.drop_first());
                }
                let (items, more) = spec_elements(s.skip(pos), n as nat);
                (
                    match items {
                        Ok(v) => Ok(ArgView::Array(v)),
                        Err(e) => Err(e),
                    },
                    pos + more,
                )
            },
        }
    }
}

/// `n` frames back to back, as the elements of an array.
pub open spec fn spec_elements(s: Seq<u8>, n: nat) -> (Result<Seq<ArgView>, ParseError>, int)
    decreases s.len(), 2int, n,
{
    if n == 0 {
        (Ok(Seq::empty()), 0)
    } else {
        let (first, used) = spec_arg(s);
        match first {
            Err(e) => (Err(e), used),
            Ok(a) => {
                // A frame never reaches past the end of `s` (lemma_arg_used).
                if 0 <= used <= s.len() {
                    let (rest, more) = spec_elements(s.skip(used), (n - 1) as nat);
                    (
                        match rest {
                            Ok(v) => Ok(seq![a] + v),
                            Err(e) => Err(e),
                        },
                        used + more,
                    )
                } else {
                    (Err(ParseError::EmptyArg), used)
                }
            },
        }
    }
}

/// A frame consumes nothing, or part of `s`, or all of it; a frame that
/// parses consumes at least three bytes, so a reader always moves on.
pub proof fn lemma_arg_used(s: Seq<u8>)
    ensures
        0 <= spec_arg(s).1 <= s.len(),
        spec_arg(s).0 is Ok ==> 3 <= spec_arg(s).1,
    decreases s.len(), 1int, 0int,
{
    if s.len() > 0 {
        if s[0] == 58u8 || s[0] == 43u8 {
            lemma_find_crlf(s, 1);
        } else if s[0] == 36u8 {
            lemma_length_used(s.drop_first());
        } else if s[0] == 42u8 {
            lemma_array_used(s);
        }
    }
}

/// An array consumes nothing, or part of `s`, or all of it; one that
/// parses consumes at least three bytes.
pub proof fn lemma_array_used(s: Seq<u8>)
    ensures
        0 <= spec_array(s).1 <= s.len(),
        spec_array(s).0 is Ok ==> 3 <= spec_array(s).1,
    decreases s.len(), 0int, 0int,
{
    if s.len() > 0 && s[0] == 42u8 {
        lemma_length_used(s.drop_first());
        let (len, used) = spec_length(s.drop_first());
        if let Ok(n) = len {
            lemma_elements_used(s.skip(1 + used), n as nat);
        }
    }
}

/// Array elements consume nothing, or part of `s`, or all of it.
pub proof fn lemma_elements_used(s: Seq<u8>, n: nat)
    ensures
        0 <= spec_elements(s, n).1 <= s.len(),
    decreases s.len(), 2int, n,
{
    if n > 0 {
        lemma_arg_used(s);
        let (first, used) = spec_arg(s);
        if first is Ok {
            lemma_elements_used(s.skip(used), (n - 1) as nat);
        }
    }
}

} // verus!
