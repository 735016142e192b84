//! Parsing RESP frames from the front of a `BytesMut`.
//!
//! Every function here reads from the front of the buffer and leaves in it
//! what it did not consume; its contract ties the outcome and the bytes
//! left behind to the matching `spec_*` function of [`crate::frame`].

use vstd::prelude::*;
use bytes::{Bytes, BytesMut};
use crate::buffer::{advance, bytes_mut_view, bytes_view, chunk, contents, freeze, split_to};
use crate::decimal::{parse_i64, parse_usize};
use crate::error::ParseError;
use crate::frame::{
    find_crlf, lemma_arg_used, lemma_find_crlf, lemma_length_used, spec_arg, spec_array,
    spec_bulk_string, spec_elements, spec_integer, spec_length, spec_line, spec_simple_string,
    ArgView, CR, LF,
};
use crate::utf8::str_from_utf8;

verus! {

/// A value read from the wire.
#[derive(Debug, PartialEq)]
pub enum Arg {
    /// A simple string.
    String(String),
    /// A bulk string: any bytes.
    Bytes(Bytes),
    /// An integer.
    Int(i64),
    /// An array of values.
    Array(Vec<Arg>),
}

/// What an [`Arg`] stands for.
pub open spec fn arg_view(a: Arg) -> ArgView
    decreases a,
{
    match a {
        Arg::String(t) => ArgView::Str(t@),
        Arg::Bytes(b) => ArgView::Bulk(bytes_view(b)),
        Arg::Int(v) => ArgView::Int(v),
        Arg::Array(items) => ArgView::Array(args_view(items@)),
    }
}

/// What a sequence of [`Arg`]s stands for, element by element.
pub open spec fn args_view(items: Seq<Arg>) -> Seq<ArgView>
    decreases items,
{
    if items.len() == 0 {
        Seq::empty()
    } else {
        args_view(items.drop_last()).push(arg_view(items.last()))
    }
}

impl View for Arg {
    type V = ArgView;

    open spec fn view(&self) -> ArgView {
        arg_view(*self)
    }
}

/// A copy of `a`, element by element.
fn clone_arg(a: &Arg) -> (r: Arg)
    ensures
        r@ == a@,
    decreases *a,
{
    match a {
        Arg::String(t) => Arg::String(t.clone()),
        Arg::Bytes(b) => Arg::Bytes(b.clone()),
        Arg::Int(v) => Arg::Int(*v),
        Arg::Array(items) => {
            let mut out: Vec<Arg> = Vec::new();
            let mut i: usize = 0;
            proof {
                assert(items@.take(0) =~= Seq::<Arg>::empty());
                assert(out@ =~= Seq::<Arg>::empty());
            }
            while i < items.len()
                invariant
                    *a == Arg::Array(*items),
                    i <= items@.len(),
                    out@.len() == i,
                    args_view(out@) == args_view(items@.take(i as int)),
                decreases items@.len() - i,
            {
                proof {
                    assert(decreases_to!(*a => (*a)->Array_0));
                    assert(decreases_to!(*items => items@));
                    assert(decreases_to!(items@ => items@[i as int]));
                    assert(decreases_to!(*a => items@[i as int]));
                }
                let c = clone_arg(&items[i]);
                let ghost before = out@;
                out.push(c);
                proof {
                    assert(out@.drop_last() =~= before);
                    assert(items@.take(i + 1).drop_last() =~= items@.take(i as int));
                }
                i = i + 1;
            }
            proof {
                assert(items@.take(items@.len() as int) =~= items@);
            }
            Arg::Array(out)
        },
    }
}

impl Clone for Arg {
    /// A copy that stands for the same value.
    fn clone(&self) -> (r: Arg)
        ensures
            r@ == self@,
    {
        clone_arg(self)
    }
}

/// The name of a command.
#[derive(Debug, PartialEq, Eq, Structural)]
pub enum CommandName {
    Fake,
    Ping,
}

/// A command and its arguments.
#[derive(Debug)]
pub struct Command {
    pub name: CommandName,
    pub args: Vec<Arg>,
}

/// The first position at or after `from` where `s` holds CR LF.
fn find_crlf_from(s: &[u8], from: usize) -> (r: Option<usize>)
    ensures
        match r {
            Some(i) => find_crlf(s@, from as int) == Some(i as int),
            None => find_crlf(s@, from as int) is None,
        },
{
    let mut i: usize = from;
    while i < s.len() && i + 1 < s.len()
        invariant
            from <= i,
            find_crlf(s@, from as int) == find_crlf(s@, i as int),
        decreases s@.len() - i,
    {
        if s[i] == CR && s[i + 1] == LF {
            return Some(i);
        }
        i = i + 1;
    }
    None
}

/// Parses a simple string (`+text\r\n`) from the front of `buf`.
pub fn parse_simple_string(buf: &mut BytesMut) -> (r: Result<String, ParseError>)
    ensures
        ({
            let (res, used) = spec_simple_string(bytes_mut_view(*old(buf)));
            &&& bytes_mut_view(*final(buf)) == bytes_mut_view(*old(buf)).skip(used)
            &&& r is Err ==> bytes_mut_view(*final(buf)) == bytes_mut_view(*old(buf))
            &&& match r {
                Ok(t) => res == Ok::<Seq<char>, ParseError>(t@),
                Err(e) => res == Err::<Seq<char>, ParseError>(e),
            }
        }),
{
    proof {
        assert(bytes_mut_view(*buf).skip(0) =~= bytes_mut_view(*buf));
    }
    let (end, text) = {
        let s = contents(buf);
        if s.len() == 0 || s[0] != 43u8 {
            return Err(ParseError::InvalidSimpleString);
        }
        match find_crlf_from(s, 1) {
            None => {
                return Err(ParseError::IncompleteSimpleString);
            },
            Some(i) => {
                proof {
                    lemma_find_crlf(s@, 1);
                }
                match str_from_utf8(&s[1..i]) {
                    None => {
                        return Err(ParseError::InvalidUtf8);
                    },
                    Some(t) => (i, t.to_owned()),
                }
            },
        }
    };
    advance(buf, end + 2);
    Ok(text)
}

/// Parses an integer (`:digits\r\n`) from the front of `buf`.
pub fn parse_integer(buf: &mut BytesMut) -> (r: Result<i64, ParseError>)
    ensures
        ({
            let (res, used) = spec_integer(bytes_mut_view(*old(buf)));
            &&& bytes_mut_view(*final(buf)) == bytes_mut_view(*old(buf)).skip(used)
            &&& r is Err ==> bytes_mut_view(*final(buf)) == bytes_mut_view(*old(buf))
            &&& match r {
                Ok(v) => res == Ok::<i64, ParseError>(v),
                Err(e) => res == Err::<i64, ParseError>(e),
            }
        }),
{
    proof {
        assert(bytes_mut_view(*buf).skip(0) =~= bytes_mut_view(*buf));
    }
    let (end, value) = {
        let s = contents(buf);
        if s.len() < 4 || s[0] != 58u8 {
            return Err(ParseError::InvalidIntegerPrefix);
        }
        match find_crlf_from(s, 1) {
            None => {
                return Err(ParseError::InvalidIntegerInput);
            },
            Some(i) => {
                proof {
                    lemma_find_crlf(s@, 1);
                }
                let text = &s[1..i];
                if str_from_utf8(text).is_none() {
                    return Err(ParseError::InvalidUtf8);
                }
                match parse_i64(text) {
                    None => {
                        return Err(ParseError::InvalidInteger);
                    },
                    Some(v) => (i, v),
                }
            },
        }
    };
    advance(buf, end + 2);
    Ok(value)
}

/// Takes the bytes up to the first CR LF off the front of `buf`, and the
/// CR LF with them.
fn parse_to_next_crlf(buf: &mut BytesMut) -> (r: Result<Bytes, ParseError>)
    ensures
        ({
            let (res, used) = spec_line(bytes_mut_view(*old(buf)));
            &&& bytes_mut_view(*final(buf)) == bytes_mut_view(*old(buf)).skip(used)
            &&& match r {
                Ok(b) => res == Ok::<Seq<u8>, ParseError>(bytes_view(b)),
                Err(e) => res == Err::<Seq<u8>, ParseError>(e),
            }
        }),
{
    let ghost s0 = bytes_mut_view(*buf);
    proof {
        assert(s0.skip(0) =~= s0);
    }
    if contents(buf).len() < 2 {
        return Err(ParseError::BufTooShortForCrlf);
    }
    match find_crlf_from(contents(buf), 0) {
        None => Err(ParseError::NoCrlf),
        Some(i) => {
            proof {
                lemma_find_crlf(s0, 0);
            }
            let head = split_to(buf, i);
            advance(buf, 2);
            proof {
                assert(s0.skip(i as int).skip(2) =~= s0.skip(i + 2));
            }
            Ok(freeze(head))
        },
    }
}

/// Takes a line holding a decimal length off the front of `buf`.
fn parse_length(buf: &mut BytesMut) -> (r: Result<usize, ParseError>)
    ensures
        ({
            let (res, used) = spec_length(bytes_mut_view(*old(buf)));
            &&& bytes_mut_view(*final(buf)) == bytes_mut_view(*old(buf)).skip(used)
            &&& match r {
                Ok(n) => res == Ok::<usize, ParseError>(n),
                Err(e) => res == Err::<usize, ParseError>(e),
            }
        }),
{
    let line = parse_to_next_crlf(buf)?;
    let text = chunk(&line);
    if str_from_utf8(text).is_none() {
        return Err(ParseError::InvalidUtf8);
    }
    match parse_usize(text) {
        None => Err(ParseError::InvalidLength),
        Some(n) => Ok(n),
    }
}

/// Parses a bulk string (`$len\r\nbytes\r\n`) from the front of `buf`.
pub fn parse_bulk_string(buf: &mut BytesMut) -> (r: Result<Bytes, ParseError>)
    ensures
        ({
            let (res, used) = spec_bulk_string(bytes_mut_view(*old(buf)));
            &&& bytes_mut_view(*final(buf)) == bytes_mut_view(*old(buf)).skip(used)
            &&& match r {
                Ok(b) => res == Ok::<Seq<u8>, ParseError>(bytes_view(b)),
                Err(e) => res == Err::<Seq<u8>, ParseError>(e),
            }
        }),
{
    let ghost s0 = bytes_mut_view(*buf);
    proof {
        assert(s0.skip(0) =~= s0);
    }
    let starts: bool = {
        let s = contents(buf);
        s.len() > 0 && s[0] == 36u8
    };
    if !starts {
        return Err(ParseError::NoBulkStringCode);
    }
    advance(buf, 1);
    proof {
        assert(s0.skip(1) =~= s0.drop_first());
    }
    let ghost s1 = bytes_mut_view(*buf);
    let len = parse_length(buf);
    let ghost used = spec_length(s1).1;
    proof {
        lemma_length_used(s1);
        assert(s1.skip(used) =~= s0.skip(1 + used));
    }
    let len = match len {
        Ok(n) => n,
        Err(e) => {
            return Err(e);
        },
    };
    let remaining = contents(buf).len();
    if remaining < 2 || len > remaining - 2 {
        return Err(ParseError::BulkStringTooLong);
    }
    let content = split_to(buf, len);
    proof {
        assert(s0.skip(1 + used).skip(len as int) =~= s0.skip(1 + used + len));
    }
    let closed: bool = {
        let s = contents(buf);
        s.len() >= 2 && s[0] == CR && s[1] == LF
    };
    if !closed {
        return Err(ParseError::MissingBulkStringCrlf);
    }
    advance(buf, 2);
    proof {
        assert(s0.skip(1 + used + len).skip(2) =~= s0.skip(1 + used + len + 2));
    }
    Ok(freeze(content))
}

/// The outcome of the first `done.len()` elements of an array, already
/// parsed into `done` with `consumed` bytes, joined with the outcome
/// `rest` of the remaining elements.
pub open spec fn join_elements(
    done: Seq<ArgView>,
    consumed: int,
    rest: (Result<Seq<ArgView>, ParseError>, int),
) -> (Result<Seq<ArgView>, ParseError>, int) {
    (
        match rest.0 {
            Ok(v) => Ok(done + v),
            Err(e) => Err(e),
        },
        consumed + rest.1,
    )
}

/// Parses any frame from the front of `buf`; its first byte says which.
pub fn parse_arg(buf: &mut BytesMut) -> (r: Result<Arg, ParseError>)
    ensures
        ({
            let (res, used) = spec_arg(bytes_mut_view(*old(buf)));
            &&& bytes_mut_view(*final(buf)) == bytes_mut_view(*old(buf)).skip(used)
            &&& match r {
                Ok(a) => res == Ok::<ArgView, ParseError>(a@),
                Err(e) => res == Err::<ArgView, ParseError>(e),
            }
        }),
    decreases bytes_mut_view(*old(buf)).len(), 1int,
{
    proof {
        assert(bytes_mut_view(*buf).skip(0) =~= bytes_mut_view(*buf));
    }
    let peek: Option<u8> = {
        let s = contents(buf);
        if s.len() == 0 {
            None
        } else {
            Some(s[0])
        }
    };
    match peek {
        None => Err(ParseError::EmptyArg),
        Some(b) => {
            if b == 58u8 {
                let i = parse_integer(buf)?;
                Ok(Arg::Int(i))
            } else if b == 43u8 {
                let t = parse_simple_string(buf)?;
                Ok(Arg::String(t))
            } else if b == 36u8 {
                let bulk = parse_bulk_string(buf)?;
                Ok(Arg::Bytes(bulk))
            } else if b == 42u8 {
                parse_array(buf)
            } else {
                Err(ParseError::InvalidArgPrefix)
            }
        },
    }
}

/// Parses an array (`*count\r\n` and that many frames) from the front of
/// `buf`.
pub fn parse_array(buf: &mut BytesMut) -> (r: Result<Arg, ParseError>)
    ensures
        ({
            let (res, used) = spec_array(bytes_mut_view(*old(buf)));
            &&& bytes_mut_view(*final(buf)) == bytes_mut_view(*old(buf)).skip(used)
            &&& match r {
                Ok(a) => res == Ok::<ArgView, ParseError>(a@),
                Err(e) => res == Err::<ArgView, ParseError>(e),
            }
        }),
    decreases bytes_mut_view(*old(buf)).len(), 0int,
{
    let ghost s0 = bytes_mut_view(*buf);
    proof {
        assert(s0.skip(0) =~= s0);
    }
    let starts: bool = {
        let s = contents(buf);
        s.len() > 0 && s[0] == 42u8
    };
    if !starts {
        return Err(ParseError::NoArrayPrefix);
    }
    advance(buf, 1);
    proof {
        assert(s0.skip(1) =~= s0.drop_first());
    }
    let ghost s1 = bytes_mut_view(*buf);
    let len = parse_length(buf);
    let ghost pos = 1 + spec_length(s1).1;
    proof {
        lemma_length_used(s1);
        assert(s1.skip(spec_length(s1).1) =~= s0.skip(pos));
    }
    let len = match len {
        Ok(n) => n,
        Err(e) => {
            return Err(e);
        },
    };
    let ghost start = s0.skip(pos);
    let mut args: Vec<Arg> = Vec::new();
    let mut k: usize = 0;
    let ghost mut consumed: int = 0;
    proof {
        assert(start.skip(0) =~= start);
        assert(args_view(args@) =~= Seq::<ArgView>::empty());
    }
    while k < len
        invariant
            k <= len,
            0 <= consumed <= start.len(),
            s0 == bytes_mut_view(*old(buf)),
            s0.len() > 0 && s0[0] == 42u8,
            s1 == s0.drop_first(),
            spec_length(s1) == (Ok::<usize, ParseError>(len), pos - 1),
            1 <= pos <= s0.len(),
            start.len() < s0.len(),
            start == s0.skip(pos),
            bytes_mut_view(*buf) == start.skip(consumed),
            spec_elements(start, len as nat) == join_elements(
                args_view(args@),
                consumed,
                spec_elements(start.skip(consumed), (len - k) as nat),
            ),
        decreases len - k,
    {
        let ghost cur = bytes_mut_view(*buf);
        let ghost done = args_view(args@);
        proof {
            lemma_arg_used(cur);
        }
        let item = parse_arg(buf);
        let ghost used = spec_arg(cur).1;
        proof {
            assert(cur.skip(used) =~= start.skip(consumed + used));
        }
        match item {
            Err(e) => {
                proof {
                    assert(s0.skip(pos).skip(consumed + used) =~= s0.skip(pos + consumed + used));
                }
                return Err(e);
            },
            Ok(a) => {
                let ghost rest = spec_elements(cur.skip(used), (len - k - 1) as nat);
                let ghost old_args = args@;
                args.push(a);
                proof {
                    let now = args_view(args@);
                    assert(args@.drop_last() =~= old_args);
                    assert(now =~= done.push(a@));
                    match rest.0 {
                        Ok(v) => {
                            assert(done + (seq![a@] + v) =~= now + v);
                        },
                        Err(_) => {},
                    }
                    consumed = consumed + used;
                }
            },
        }
        k = k + 1;
    }
    proof {
        let done = args_view(args@);
        assert(done + Seq::<ArgView>::empty() =~= done);
        assert(s0.skip(pos).skip(consumed) =~= s0.skip(pos + consumed));
    }
    Ok(Arg::Array(args))
}

/// What a parser does with a buffer it has filled: it reads one array off
/// the front and hands it back; when no array can be read, it reports that
/// no argument could be parsed.
pub fn parse_request(buf: &mut BytesMut) -> (r: Result<Option<Arg>, ParseError>)
    ensures
        bytes_mut_view(*final(buf)) == bytes_mut_view(*old(buf)).skip(
            spec_array(bytes_mut_view(*old(buf))).1,
        ),
        match r {
            Ok(Some(a)) => spec_array(bytes_mut_view(*old(buf))).0 == Ok::<ArgView, ParseError>(a@),
            Ok(None) => false,
            Err(e) => spec_array(bytes_mut_view(*old(buf))).0 is Err && e == ParseError::EmptyArg,
        },
{
    match parse_array(buf) {
        Ok(a) => Ok(Some(a)),
        Err(_) => Err(ParseError::EmptyArg),
    }
}

} // verus!
