//! What holds of the parser as a whole.

use vstd::prelude::*;
use vstd::utf8::{encode_utf8, encode_utf8_decode_utf8, encode_utf8_valid_utf8, valid_utf8};
use crate::decimal::{
    decimal, is_digit, lemma_decimal, lemma_parse_i64_signed_decimal,
    lemma_parse_usize_decimal, signed_decimal,
};
use crate::error::ParseError;
use crate::frame::{
    ArgView, CR, LF, crlf_at, find_crlf, lemma_arg_used, lemma_find_crlf, lemma_length_used,
    spec_arg, spec_array,
    spec_bulk_string, spec_elements, spec_integer, spec_length, spec_line, spec_simple_string,
};

verus! {

/// Bytes after the first CR LF do not move it.
proof fn lemma_find_crlf_extend(s: Seq<u8>, t: Seq<u8>, from: int)
    requires
        0 <= from,
        find_crlf(s, from) is Some,
    ensures
        find_crlf(s + t, from) == find_crlf(s, from),
    decreases s.len() - from,
{
    if crlf_at(s, from) {
        assert((s + t)[from] == s[from] && (s + t)[from + 1] == s[from + 1]);
    } else {
        lemma_find_crlf_extend(s, t, from + 1);
        if from + 1 < (s + t).len() {
            assert((s + t)[from] == s[from]);
            if from + 1 < s.len() {
                assert((s + t)[from + 1] == s[from + 1]);
            }
        }
    }
}

/// Bytes after a whole line do not change it.
proof fn lemma_line_extend(s: Seq<u8>, t: Seq<u8>)
    requires
        spec_line(s).0 is Ok,
    ensures
        spec_line(s + t) == spec_line(s),
{
    lemma_find_crlf_extend(s, t, 0);
    lemma_find_crlf(s, 0);
    let i = find_crlf(s, 0)->0;
    assert((s + t).take(i) =~= s.take(i));
}

/// Bytes after a whole line do not change the length it holds.
proof fn lemma_length_extend(s: Seq<u8>, t: Seq<u8>)
    requires
        spec_line(s).0 is Ok,
    ensures
        spec_length(s + t) == spec_length(s),
{
    lemma_line_extend(s, t);
}

/// Streaming: bytes that follow a whole simple string do not change what is
/// parsed, nor how much is consumed.
pub proof fn law_simple_string_extend(s: Seq<u8>, t: Seq<u8>)
    requires
        spec_simple_string(s).0 is Ok,
    ensures
        spec_simple_string(s + t) == spec_simple_string(s),
{
    lemma_find_crlf_extend(s, t, 1);
    lemma_find_crlf(s, 1);
    let i = find_crlf(s, 1)->0;
    assert((s + t).subrange(1, i) =~= s.subrange(1, i));
}

/// Streaming: bytes that follow a whole integer frame do not change what is
/// parsed, nor how much is consumed.
pub proof fn law_integer_extend(s: Seq<u8>, t: Seq<u8>)
    requires
        spec_integer(s).0 is Ok,
    ensures
        spec_integer(s + t) == spec_integer(s),
{
    lemma_find_crlf_extend(s, t, 1);
    lemma_find_crlf(s, 1);
    let i = find_crlf(s, 1)->0;
    assert((s + t).subrange(1, i) =~= s.subrange(1, i));
}

/// Streaming: bytes that follow a whole bulk string do not change what is
/// parsed, nor how much is consumed.
pub proof fn law_bulk_string_extend(s: Seq<u8>, t: Seq<u8>)
    requires
        spec_bulk_string(s).0 is Ok,
    ensures
        spec_bulk_string(s + t) == spec_bulk_string(s),
{
    let s1 = s.drop_first();
    assert((s + t).drop_first() =~= s1 + t);
    lemma_length_extend(s1, t);
    lemma_length_used(s1);
    let pos = 1 + spec_length(s1).1;
    let n = spec_length(s1).0->Ok_0;
    let rest = s.skip(pos);
    assert((s + t).skip(pos) =~= rest + t);
    assert((rest + t)[n as int] == rest[n as int]);
    assert((rest + t)[n + 1] == rest[n + 1]);
    assert((rest + t).take(n as int) =~= rest.take(n as int));
}

/// Streaming: bytes that follow a whole frame of any kind do not change
/// what is parsed, nor how much is consumed; so frames sent back to back
/// are read one after the other.
pub proof fn law_arg_extend(s: Seq<u8>, t: Seq<u8>)
    requires
        spec_arg(s).0 is Ok,
    ensures
        spec_arg(s + t) == spec_arg(s),
    decreases s.len(), 1int, 0int,
{
    assert((s + t)[0] == s[0]);
    if s[0] == 58u8 {
        law_integer_extend(s, t);
    } else if s[0] == 43u8 {
        law_simple_string_extend(s, t);
    } else if s[0] == 36u8 {
        law_bulk_string_extend(s, t);
    } else {
        law_array_extend(s, t);
    }
}

/// Streaming: bytes that follow a whole array do not change what is parsed,
/// nor how much is consumed.
pub proof fn law_array_extend(s: Seq<u8>, t: Seq<u8>)
    requires
        spec_array(s).0 is Ok,
    ensures
        spec_array(s + t) == spec_array(s),
    decreases s.len(), 0int, 0int,
{
    let s1 = s.drop_first();
    assert((s + t).drop_first() =~= s1 + t);
    lemma_length_extend(s1, t);
    lemma_length_used(s1);
    let pos = 1 + spec_length(s1).1;
    let n = spec_length(s1).0->Ok_0;
    assert((s + t).skip(pos) =~= s.skip(pos) + t);
    lemma_elements_extend(s.skip(pos), t, n as nat);
}

/// Bytes that follow whole array elements do not change them.
proof fn lemma_elements_extend(s: Seq<u8>, t: Seq<u8>, n: nat)
    requires
        spec_elements(s, n).0 is Ok,
    ensures
        spec_elements(s + t, n) == spec_elements(s, n),
    decreases s.len(), 2int, n,
{
    if n > 0 {
        law_arg_extend(s, t);
        let used = spec_arg(s).1;
        lemma_arg_used(s);
        assert((s + t).skip(used) =~= s.skip(used) + t);
        lemma_elements_extend(s.skip(used), t, (n - 1) as nat);
    }
}

/// CR LF.
pub open spec fn crlf() -> Seq<u8> {
    seq![CR, LF]
}

/// The frame of a simple string holding `text`.
pub open spec fn simple_string_frame(text: Seq<char>) -> Seq<u8> {
    seq![43u8] + encode_utf8(text) + crlf()
}

/// The frame of the integer `v`.
pub open spec fn integer_frame(v: i64) -> Seq<u8> {
    seq![58u8] + signed_decimal(v as int) + crlf()
}

/// The frame of a bulk string holding `content`.
pub open spec fn bulk_string_frame(content: Seq<u8>) -> Seq<u8> {
    seq![36u8] + decimal(content.len()) + crlf() + content + crlf()
}

/// The first line of an array of `n` elements.
pub open spec fn array_header(n: nat) -> Seq<u8> {
    seq![42u8] + decimal(n) + crlf()
}

/// A CR LF at `i`, with none from `from` up to `i`, is the first one.
proof fn lemma_find_crlf_first(s: Seq<u8>, from: int, i: int)
    requires
        0 <= from <= i,
        crlf_at(s, i),
        forall|j: int| from <= j < i ==> !crlf_at(s, j),
    ensures
        find_crlf(s, from) == Some(i),
    decreases i - from,
{
    if from < i {
        lemma_find_crlf_first(s, from + 1, i);
    }
}

/// Bytes below 0x80 are well-formed UTF-8.
proof fn lemma_ascii_valid_utf8(s: Seq<u8>)
    requires
        forall|i: int| 0 <= i < s.len() ==> s[i] < 0x80,
    ensures
        valid_utf8(s),
    decreases s.len(),
{
    if s.len() > 0 {
        let b = s[0];
        assert(b & 0x7F <= 0x7F) by (bit_vector);
        lemma_ascii_valid_utf8(s.subrange(1, s.len() as int));
    }
}

/// What `signed_decimal` writes is a `-` or digits, and not empty.
proof fn lemma_signed_decimal_bytes(v: int)
    ensures
        signed_decimal(v).len() >= 1,
        forall|i: int|
            0 <= i < signed_decimal(v).len() ==> signed_decimal(v)[i] == 45u8 || is_digit(
                #[trigger] signed_decimal(v)[i],
            ),
{
    if v < 0 {
        lemma_decimal((-v) as nat);
        let d = decimal((-v) as nat);
        assert forall|i: int| 0 <= i < signed_decimal(v).len() implies signed_decimal(v)[i] == 45u8
            || is_digit(#[trigger] signed_decimal(v)[i]) by {
            if i > 0 {
                assert(signed_decimal(v)[i] == d[i - 1]);
            }
        }
    } else {
        lemma_decimal(v as nat);
    }
}

/// Reading back: the frame of an integer, whatever follows it, parses to
/// that integer and consumes exactly the frame.
pub proof fn law_integer_roundtrip(v: i64, t: Seq<u8>)
    ensures
        spec_integer(integer_frame(v) + t) == (
            Ok::<i64, ParseError>(v),
            integer_frame(v).len() as int,
        ),
{
    let d = signed_decimal(v as int);
    let s = integer_frame(v) + t;
    let l = d.len() as int;
    lemma_signed_decimal_bytes(v as int);
    lemma_parse_i64_signed_decimal(v);
    assert forall|j: int| 1 <= j <= l implies s[j] == d[j - 1] by {}
    assert(s[l + 1] == CR && s[l + 2] == LF);
    assert forall|j: int| 1 <= j < l + 1 implies !crlf_at(s, j) by {
        assert(s[j] == d[j - 1]);
    }
    lemma_find_crlf_first(s, 1, l + 1);
    assert(s.subrange(1, l + 1) =~= d);
    lemma_ascii_valid_utf8(d);
}

/// Reading back: the frame of a bulk string, whatever follows it, parses to
/// exactly its content (any bytes at all, CR LF among them) and consumes
/// exactly the frame.
pub proof fn law_bulk_string_roundtrip(content: Seq<u8>, t: Seq<u8>)
    requires
        content.len() <= usize::MAX,
    ensures
        spec_bulk_string(bulk_string_frame(content) + t) == (
            Ok::<Seq<u8>, ParseError>(content),
            bulk_string_frame(content).len() as int,
        ),
{
    let n = content.len();
    let d = decimal(n);
    let l = d.len() as int;
    let s = bulk_string_frame(content) + t;
    let s1 = s.drop_first();
    lemma_decimal(n);
    lemma_parse_usize_decimal(n);
    assert(s1 =~= d + crlf() + content + crlf() + t);
    assert forall|j: int| 0 <= j < l implies !crlf_at(s1, j) by {
        assert(s1[j] == d[j]);
    }
    assert(s1[l] == CR && s1[l + 1] == LF);
    lemma_find_crlf_first(s1, 0, l);
    assert(s1.take(l) =~= d);
    lemma_ascii_valid_utf8(d);
    let rest = s.skip(l + 3);
    assert(rest =~= content + crlf() + t);
    assert(rest[n as int] == CR && rest[n as int + 1] == LF);
    assert(rest.take(n as int) =~= content);
}

/// Reading back: an array header for `n` elements, followed by `n` frames
/// that parse, parses to the array of their values and consumes the header
/// and the frames.
pub proof fn law_array_roundtrip(n: nat, s: Seq<u8>)
    requires
        n <= usize::MAX,
        spec_elements(s, n).0 is Ok,
    ensures
        spec_array(array_header(n) + s) == (
            Ok::<ArgView, ParseError>(ArgView::Array(spec_elements(s, n).0->Ok_0)),
            array_header(n).len() + spec_elements(s, n).1,
        ),
{
    let d = decimal(n);
    let l = d.len() as int;
    let a = array_header(n) + s;
    let a1 = a.drop_first();
    lemma_decimal(n);
    lemma_parse_usize_decimal(n);
    assert(a1 =~= d + crlf() + s);
    assert forall|j: int| 0 <= j < l implies !crlf_at(a1, j) by {
        assert(a1[j] == d[j]);
    }
    assert(a1[l] == CR && a1[l + 1] == LF);
    lemma_find_crlf_first(a1, 0, l);
    assert(a1.take(l) =~= d);
    lemma_ascii_valid_utf8(d);
    assert(a.skip(l + 3) =~= s);
}

/// Reading back: the frame of a simple string whose text holds no CR LF,
/// whatever follows it, parses to that text and consumes exactly the frame.
pub proof fn law_simple_string_roundtrip(text: Seq<char>, t: Seq<u8>)
    requires
        forall|j: int| !crlf_at(encode_utf8(text), j),
    ensures
        spec_simple_string(simple_string_frame(text) + t) == (
            Ok::<Seq<char>, ParseError>(text),
            simple_string_frame(text).len() as int,
        ),
{
    let e = encode_utf8(text);
    let l = e.len() as int;
    let s = simple_string_frame(text) + t;
    assert forall|j: int| 1 <= j <= l implies s[j] == e[j - 1] by {}
    assert(s[l + 1] == CR && s[l + 2] == LF);
    assert forall|j: int| 1 <= j < l + 1 implies !crlf_at(s, j) by {
        assert(s[j] == e[j - 1]);
        if j < l {
            assert(s[j + 1] == e[j]);
            assert(!crlf_at(e, j - 1));
        } else {
            assert(s[j + 1] == CR);
        }
    }
    lemma_find_crlf_first(s, 1, l + 1);
    assert(s.subrange(1, l + 1) =~= e);
    encode_utf8_valid_utf8(text);
    encode_utf8_decode_utf8(text);
}

/// Reading back a line: bytes holding no CR LF, followed by CR LF, are read
/// as one line, whatever follows, and the CR LF is consumed with them.
pub proof fn law_line_roundtrip(s: Seq<u8>, rest: Seq<u8>)
    requires
        forall|j: int| !crlf_at(s, j),
    ensures
        spec_line(s + crlf() + rest) == (
            Ok::<Seq<u8>, ParseError>(s),
            s.len() + 2int,
        ),
{
    let x = s + crlf() + rest;
    let l = s.len() as int;
    assert(x[l] == CR && x[l + 1] == LF);
    assert forall|j: int| 0 <= j < l implies !crlf_at(x, j) by {
        assert(x[j] == s[j]);
        if j + 1 < l {
            assert(x[j + 1] == s[j + 1]);
            assert(!crlf_at(s, j));
        } else {
            assert(x[j + 1] == CR);
        }
    }
    lemma_find_crlf_first(x, 0, l);
    assert(x.take(l) =~= s);
}

/// The frame that carries the value `v`.
pub open spec fn frame_of(v: ArgView) -> Seq<u8>
    decreases v,
{
    match v {
        ArgView::Str(text) => simple_string_frame(text),
        ArgView::Bulk(content) => bulk_string_frame(content),
        ArgView::Int(i) => integer_frame(i),
        ArgView::Array(items) => array_header(items.len()) + frames_of(items),
    }
}

/// The frames of `items`, back to back.
pub open spec fn frames_of(items: Seq<ArgView>) -> Seq<u8>
    decreases items,
{
    if items.len() == 0 {
        Seq::empty()
    } else {
        frame_of(items[0]) + frames_of(items.drop_first())
    }
}

/// True when `v` can travel in a frame: no simple string's text holds
/// CR LF, and no bulk string or array is longer than `usize::MAX`.
pub open spec fn sendable(v: ArgView) -> bool
    decreases v,
{
    match v {
        ArgView::Str(text) => forall|j: int| !crlf_at(encode_utf8(text), j),
        ArgView::Bulk(content) => content.len() <= usize::MAX,
        ArgView::Int(_) => true,
        ArgView::Array(items) => items.len() <= usize::MAX && all_sendable(items),
    }
}

/// True when every one of `items` can travel in a frame.
pub open spec fn all_sendable(items: Seq<ArgView>) -> bool
    decreases items,
{
    items.len() > 0 ==> sendable(items[0]) && all_sendable(items.drop_first())
}

/// Reading back any value, arrays nested to any depth included: the frame
/// of a value that can travel in a frame, whatever follows it, parses to
/// that value and consumes exactly the frame.
pub proof fn law_arg_roundtrip(v: ArgView, t: Seq<u8>)
    requires
        sendable(v),
    ensures
        spec_arg(frame_of(v) + t) == (
            Ok::<ArgView, ParseError>(v),
            frame_of(v).len() as int,
        ),
    decreases v,
{
    let s = frame_of(v) + t;
    match v {
        ArgView::Str(text) => {
            assert(s[0] == 43u8);
            law_simple_string_roundtrip(text, t);
        },
        ArgView::Bulk(content) => {
            assert(s[0] == 36u8);
            law_bulk_string_roundtrip(content, t);
        },
        ArgView::Int(i) => {
            assert(s[0] == 58u8);
            law_integer_roundtrip(i, t);
        },
        ArgView::Array(items) => {
            assert(s[0] == 42u8);
            let n = items.len();
            lemma_frames_roundtrip(items, t);
            assert(s =~= array_header(n) + (frames_of(items) + t));
            law_array_roundtrip(n, frames_of(items) + t);
        },
    }
}

/// The frames of values that can travel in frames, whatever follows them,
/// parse back to those values as array elements, consuming exactly them.
proof fn lemma_frames_roundtrip(items: Seq<ArgView>, t: Seq<u8>)
    requires
        all_sendable(items),
    ensures
        spec_elements(frames_of(items) + t, items.len()) == (
            Ok::<Seq<ArgView>, ParseError>(items),
            frames_of(items).len() as int,
        ),
    decreases items,
{
    if items.len() > 0 {
        let first = items[0];
        let others = items.drop_first();
        let s = frames_of(items) + t;
        let rest = frames_of(others) + t;
        assert(s =~= frame_of(first) + rest);
        law_arg_roundtrip(first, rest);
        lemma_arg_used(s);
        assert(s.skip(frame_of(first).len() as int) =~= rest);
        lemma_frames_roundtrip(others, t);
        assert(seq![first] + others =~= items);
        assert(frames_of(items).len() == frame_of(first).len() + frames_of(others).len());
    } else {
        assert(items =~= Seq::<ArgView>::empty());
    }
}

} // verus!
