//! Decimal numbers: parsing them the way `u32::from_str` does, and writing them.
use vstd::prelude::*;
use crate::utf8_text::{bytes_of, lemma_bytes_of_ascii_char, lemma_bytes_of_concat};

verus! {

/// An ASCII digit `0`..=`9`.
pub open spec fn is_digit_byte(b: u8) -> bool {
    48 <= b <= 57
}

pub open spec fn all_digits(s: Seq<u8>) -> bool {
    forall|i: int| 0 <= i < s.len() ==> is_digit_byte(#[trigger] s[i])
}

/// The number written by a sequence of ASCII digits, most significant first.
pub open spec fn digits_value(s: Seq<u8>) -> nat
    decreases s.len(),
{
    if s.len() == 0 {
        0
    } else {
        digits_value(s.drop_last()) * 10 + (s.last() - 48) as nat
    }
}

/// The digits of a number once an optional leading `+` is taken off.
pub open spec fn unsigned_digits(s: Seq<u8>) -> Seq<u8> {
    if s.len() > 0 && s[0] == 43u8 {
        s.drop_first()
    } else {
        s
    }
}

/// What `str::parse::<u32>` gives for a string with these bytes: an optional `+`,
/// then one or more ASCII digits whose value fits in a `u32`; anything else fails.
pub open spec fn spec_parse_u32(s: Seq<u8>) -> Option<u32> {
    let d = unsigned_digits(s);
    if d.len() > 0 && all_digits(d) && digits_value(d) <= u32::MAX {
        Some(digits_value(d) as u32)
    } else {
        None
    }
}

proof fn lemma_value_prefix_le(s: Seq<u8>, k: int)
    requires
        0 <= k <= s.len(),
    ensures
        digits_value(s.take(k)) <= digits_value(s),
    decreases s.len(),
{
    if k < s.len() {
        lemma_value_prefix_le(s.drop_last(), k);
        assert(s.drop_last().take(k) =~= s.take(k));
    } else {
        assert(s.take(k) =~= s);
    }
}

/// Parses a decimal `u32` from bytes exactly as `str::parse::<u32>` does.
pub fn parse_u32(s: &[u8]) -> (res: Option<u32>)
    ensures
        res == spec_parse_u32(s@),
{
    let n = s.len();
    if n == 0 {
        return None;
    }
    let start: usize = if s[0] == 43u8 { 1 } else { 0 };
    let ghost d = unsigned_digits(s@);
    assert(d =~= s@.subrange(start as int, n as int));
    if start == n {
        return None;
    }
    let mut i: usize = start;
    let mut v: u64 = 0;
    while i < n
        invariant
            start <= i <= n,
            n == s@.len(),
            start < n,
            d == s@.subrange(start as int, n as int),
            d == unsigned_digits(s@),
            v as nat == digits_value(s@.subrange(start as int, i as int)),
            v <= u32::MAX,
            all_digits(s@.subrange(start as int, i as int)),
        decreases n - i,
    {
        let c = s[i];
        if c < 48u8 || c > 57u8 {
            assert(!is_digit_byte(d[i - start]));
            return None;
        }
        let ghost prev = s@.subrange(start as int, i as int);
        let ghost next = s@.subrange(start as int, i + 1);
        assert(next.drop_last() =~= prev);
        v = v * 10 + (c - 48u8) as u64;
        assert(v as nat == digits_value(next));
        if v > 4294967295u64 {
            proof {
                assert(d.take(i + 1 - start) =~= next);
                lemma_value_prefix_le(d, i + 1 - start);
            }
            return None;
        }
        i = i + 1;
    }
    assert(s@.subrange(start as int, n as int) =~= d);
    Some(v as u32)
}

/// The character of a single decimal digit.
pub open spec fn digit_char(d: nat) -> char {
    if d == 0 { '0' }
    else if d == 1 { '1' }
    else if d == 2 { '2' }
    else if d == 3 { '3' }
    else if d == 4 { '4' }
    else if d == 5 { '5' }
    else if d == 6 { '6' }
    else if d == 7 { '7' }
    else if d == 8 { '8' }
    else { '9' }
}

/// The decimal form of a number, as `u32::to_string` writes it (no sign, no
/// leading zeros).
pub open spec fn decimal_chars(n: nat) -> Seq<char>
    decreases n,
{
    if n < 10 {
        seq![digit_char(n)]
    } else {
        decimal_chars(n / 10) + seq![digit_char(n % 10)]
    }
}

fn digit_str(d: u32) -> (r: &'static str)
    requires
        d < 10,
    ensures
        r@ == seq![digit_char(d as nat)],
{
    match d {
        0 => {
            proof { reveal_strlit("0"); }
            "0"
        },
        1 => {
            proof { reveal_strlit("1"); }
            "1"
        },
        2 => {
            proof { reveal_strlit("2"); }
            "2"
        },
        3 => {
            proof { reveal_strlit("3"); }
            "3"
        },
        4 => {
            proof { reveal_strlit("4"); }
            "4"
        },
        5 => {
            proof { reveal_strlit("5"); }
            "5"
        },
        6 => {
            proof { reveal_strlit("6"); }
            "6"
        },
        7 => {
            proof { reveal_strlit("7"); }
            "7"
        },
        8 => {
            proof { reveal_strlit("8"); }
            "8"
        },
        _ => {
            proof { reveal_strlit("9"); }
            "9"
        },
    }
}

/// Appends the decimal form of `n` to `out`.
pub fn push_decimal(out: &mut String, n: u32)
    ensures
        final(out)@ == old(out)@ + decimal_chars(n as nat),
    decreases n,
{
    if n >= 10 {
        push_decimal(out, n / 10);
    }
    out.append(digit_str(n % 10));
    assert(final(out)@ =~= old(out)@ + decimal_chars(n as nat));
}

proof fn lemma_digit_char_byte(d: nat)
    requires
        d < 10,
    ensures
        bytes_of(seq![digit_char(d)]) == seq![(48 + d) as u8],
        is_digit_byte((48 + d) as u8),
{
    lemma_bytes_of_ascii_char(digit_char(d));
}

/// The bytes of the decimal form of `n` are ASCII digits that are worth `n`.
proof fn lemma_decimal_bytes(n: nat)
    ensures
        bytes_of(decimal_chars(n)).len() >= 1,
        all_digits(bytes_of(decimal_chars(n))),
        digits_value(bytes_of(decimal_chars(n))) == n,
    decreases n,
{
    if n < 10 {
        lemma_digit_char_byte(n);
        let b = bytes_of(decimal_chars(n));
        assert(b.drop_last() =~= Seq::<u8>::empty());
        assert(digits_value(Seq::<u8>::empty()) == 0);
        assert(b.last() == (48 + n) as u8);
        assert(digits_value(b) == digits_value(b.drop_last()) * 10 + (b.last() - 48) as nat);
    } else {
        lemma_decimal_bytes(n / 10);
        lemma_digit_char_byte(n % 10);
        lemma_bytes_of_concat(decimal_chars(n / 10), seq![digit_char(n % 10)]);
        let hi = bytes_of(decimal_chars(n / 10));
        let b = bytes_of(decimal_chars(n));
        assert(b == hi + seq![(48 + n % 10) as u8]);
        assert(b.drop_last() =~= hi);
        assert((n / 10) * 10 + n % 10 == n) by (nonlinear_arith);
        assert(b.last() == (48 + n % 10) as u8);
        assert(digits_value(b) == digits_value(hi) * 10 + (b.last() - 48) as nat);
    }
}

/// Reading back the decimal form of a number gives the number: what
/// `push_decimal` writes, `parse_u32` reads as the same value.
pub proof fn lemma_parse_reads_decimal(n: u32)
    ensures
        spec_parse_u32(bytes_of(decimal_chars(n as nat))) == Some(n),
        all_digits(bytes_of(decimal_chars(n as nat))),
{
    lemma_decimal_bytes(n as nat);
    let b = bytes_of(decimal_chars(n as nat));
    assert(is_digit_byte(b[0]));
    assert(unsigned_digits(b) == b);
}

} // verus!
