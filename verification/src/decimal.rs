//! Decimal integers as the protocol writes them: the rules of Rust's
//! `str::parse` for `i64` and `usize` (an optional sign, then one or more
//! ASCII digits, and a value that fits the type), stated over bytes and
//! implemented here.

use vstd::prelude::*;

verus! {

/// True for the ASCII digits `0` to `9`.
pub open spec fn is_digit(b: u8) -> bool {
    48 <= b <= 57
}

/// True when `d` is one or more ASCII digits.
pub open spec fn is_digits(d: Seq<u8>) -> bool {
    d.len() > 0 && forall|i: int| 0 <= i < d.len() ==> is_digit(#[trigger] d[i])
}

/// The value of a string of ASCII digits, most significant first.
pub open spec fn digits_value(d: Seq<u8>) -> int
    decreases d.len(),
{
    if d.len() == 0 {
        0
    } else {
        digits_value(d.drop_last()) * 10 + (d.last() - 48)
    }
}

/// The unsigned magnitude that `s` spells: digits after an optional `+`.
pub open spec fn spec_parse_unsigned(s: Seq<u8>) -> Option<int> {
    let d = if s.len() > 0 && s[0] == 43u8 { s.drop_first() } else { s };
    if is_digits(d) {
        Some(digits_value(d))
    } else {
        None
    }
}

/// What `str::parse::<usize>` gives for the text `s`.
pub open spec fn spec_parse_usize(s: Seq<u8>) -> Option<usize> {
    match spec_parse_unsigned(s) {
        Some(v) => if v <= usize::MAX {
            Some(v as usize)
        } else {
            None
        },
        None => None,
    }
}

/// What `str::parse::<i64>` gives for the text `s`: a `-` followed by
/// digits is negative, anything else is read as an unsigned magnitude.
pub open spec fn spec_parse_i64(s: Seq<u8>) -> Option<i64> {
    if s.len() > 0 && s[0] == 45u8 {
        let d = s.drop_first();
        if is_digits(d) && digits_value(d) <= 0x8000_0000_0000_0000 {
            Some((-digits_value(d)) as i64)
        } else {
            None
        }
    } else {
        match spec_parse_unsigned(s) {
            Some(v) => if v <= i64::MAX {
                Some(v as i64)
            } else {
                None
            },
            None => None,
        }
    }
}

/// The decimal digits of `n`, most significant first, with no leading zero.
pub open spec fn decimal(n: nat) -> Seq<u8>
    decreases n,
{
    if n < 10 {
        seq![(48 + n) as u8]
    } else {
        decimal(n / 10).push((48 + n % 10) as u8)
    }
}

/// `n` written in decimal, with a leading `-` when it is negative.
pub open spec fn signed_decimal(v: int) -> Seq<u8> {
    if v < 0 {
        seq![45u8] + decimal((-v) as nat)
    } else {
        decimal(v as nat)
    }
}

/// The decimal digits of `n` are digits, and spell `n`.
pub proof fn lemma_decimal(n: nat)
    ensures
        is_digits(decimal(n)),
        digits_value(decimal(n)) == n,
    decreases n,
{
    let d = decimal(n);
    if n < 10 {
        assert(d.drop_last() =~= Seq::<u8>::empty());
        assert(d.last() - 48 == n);
        assert(digits_value(d.drop_last()) == 0);
    } else {
        lemma_decimal(n / 10);
        assert(d.drop_last() =~= decimal(n / 10));
        vstd::arithmetic::div_mod::lemma_fundamental_div_mod(n as int, 10);
        assert(d.last() - 48 == n % 10);
        assert(digits_value(d) == digits_value(d.drop_last()) * 10 + (d.last() - 48));
    }
}

/// Reading back what `decimal` writes gives the number again.
pub proof fn lemma_parse_usize_decimal(n: nat)
    requires
        n <= usize::MAX,
    ensures
        spec_parse_usize(decimal(n)) == Some(n as usize),
{
    lemma_decimal(n);
}

/// Reading back what `signed_decimal` writes gives the number again.
pub proof fn lemma_parse_i64_signed_decimal(v: i64)
    ensures
        spec_parse_i64(signed_decimal(v as int)) == Some(v),
{
    if v < 0 {
        let m = (-v) as nat;
        lemma_decimal(m);
        assert((seq![45u8] + decimal(m)).drop_first() =~= decimal(m));
    } else {
        lemma_decimal(v as nat);
        assert(is_digit(decimal(v as nat)[0]));
    }
}

/// Reads the digits `d[start..]` as a number no greater than `limit`.
fn digits_up_to(d: &[u8], start: usize, limit: u64) -> (r: Option<u64>)
    requires
        start <= d@.len(),
    ensures
        match r {
            Some(v) => is_digits(d@.skip(start as int)) && digits_value(d@.skip(start as int)) == v
                && v <= limit,
            None => !(is_digits(d@.skip(start as int)) && digits_value(d@.skip(start as int))
                <= limit),
        },
{
    if start >= d.len() {
        return None;
    }
    let mut i: usize = start;
    let mut v: u64 = 0;
    let mut over: bool = false;
    while i < d.len()
        invariant
            start <= i <= d@.len(),
            forall|k: int| start <= k < i ==> is_digit(#[trigger] d@[k]),
            !over ==> v == digits_value(d@.subrange(start as int, i as int)) && v <= limit,
            over ==> digits_value(d@.subrange(start as int, i as int)) > limit,
        decreases d@.len() - i,
    {
        let b: u8 = d[i];
        if b < 48 || b > 57 {
            assert(d@.skip(start as int)[i - start] == b);
            return None;
        }
        let ghost prev = d@.subrange(start as int, i as int);
        let ghost next = d@.subrange(start as int, i + 1);
        assert(next.drop_last() =~= prev);
        assert(digits_value(next) == digits_value(prev) * 10 + (b - 48));
        let dv: u64 = (b - 48) as u64;
        if !over {
            match v.checked_mul(10) {
                Some(m) => match m.checked_add(dv) {
                    Some(n) => {
                        if n <= limit {
                            v = n;
                        } else {
                            over = true;
                        }
                    },
                    None => {
                        over = true;
                    },
                },
                None => {
                    over = true;
                },
            }
        }
        i = i + 1;
    }
    assert(d@.subrange(start as int, d@.len() as int) =~= d@.skip(start as int));
    if over {
        None
    } else {
        Some(v)
    }
}

/// Parses `text` as `str::parse::<usize>` does.
pub fn parse_usize(text: &[u8]) -> (r: Option<usize>)
    ensures
        r == spec_parse_usize(text@),
{
    let start: usize = if text.len() > 0 && text[0] == 43u8 { 1 } else { 0 };
    assert(text@.skip(start as int) =~= (if text@.len() > 0 && text@[0] == 43u8 {
        text@.drop_first()
    } else {
        text@
    }));
    match digits_up_to(text, start, usize::MAX as u64) {
        Some(v) => Some(v as usize),
        None => None,
    }
}

/// Parses `text` as `str::parse::<i64>` does.
pub fn parse_i64(text: &[u8]) -> (r: Option<i64>)
    ensures
        r == spec_parse_i64(text@),
{
    if text.len() > 0 && text[0] == 45u8 {
        assert(text@.skip(1) =~= text@.drop_first());
        match digits_up_to(text, 1, 0x8000_0000_0000_0000u64) {
            Some(v) => {
                if v == 0x8000_0000_0000_0000u64 {
                    Some(i64::MIN)
                } else {
                    Some(-(v as i64))
                }
            },
            None => None,
        }
    } else {
        let start: usize = if text.len() > 0 && text[0] == 43u8 { 1 } else { 0 };
        assert(text@.skip(start as int) =~= (if text@.len() > 0 && text@[0] == 43u8 {
            text@.drop_first()
        } else {
            text@
        }));
        match digits_up_to(text, start, i64::MAX as u64) {
            Some(v) => Some(v as i64),
            None => None,
        }
    }
}

} // verus!
