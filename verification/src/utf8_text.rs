//! Facts about the UTF-8 bytes of strings, and slicing a string by byte offsets.
use vstd::prelude::*;
use vstd::utf8::*;
use vstd::string::StringSliceAdditionalSpecFns;

verus! {

/// The UTF-8 bytes of a character sequence.
pub open spec fn bytes_of(s: Seq<char>) -> Seq<u8> {
    encode_utf8(s)
}

/// The bytes of two character sequences put together are their bytes put
/// together.
pub proof fn lemma_bytes_of_concat(a: Seq<char>, b: Seq<char>)
    ensures
        bytes_of(a + b) == bytes_of(a) + bytes_of(b),
    decreases a.len(),
{
    if a.len() == 0 {
        assert(a + b =~= b);
    } else {
        lemma_bytes_of_concat(a.drop_first(), b);
        assert((a + b).drop_first() =~= a.drop_first() + b);
        assert((a + b)[0] == a[0]);
    }
}

/// An ASCII character is the single byte of its code.
pub proof fn lemma_bytes_of_ascii_char(c: char)
    requires
        (c as u32) < 128,
    ensures
        bytes_of(seq![c]) == seq![(c as u32) as u8],
{
    let v = c as u32;
    assert(v & 0x7Fu32 == v) by (bit_vector)
        requires
            v < 128u32,
    ;
    assert(seq![c].drop_first() =~= Seq::<char>::empty());
    assert(encode_utf8(Seq::<char>::empty()) =~= Seq::<u8>::empty());
    assert(encode_scalar(v) == seq![(v as u32) as u8]);
    assert(bytes_of(seq![c]) =~= encode_scalar(v) + encode_utf8(Seq::<char>::empty()));
    assert(bytes_of(seq![c]) =~= seq![(c as u32) as u8]);
}

/// A string's characters are what its bytes decode to.
pub proof fn lemma_str_view_decodes(s: &str)
    ensures
        s@ == decode_utf8(s.spec_bytes()),
        valid_utf8(s.spec_bytes()),
{
    encode_utf8_decode_utf8(s@);
    encode_utf8_valid_utf8(s@);
}

/// In valid UTF-8, an ASCII byte always starts a character.
pub proof fn lemma_ascii_byte_is_boundary(bytes: Seq<u8>, i: int)
    requires
        valid_utf8(bytes),
        0 <= i < bytes.len(),
        bytes[i] < 0x80,
    ensures
        is_char_boundary(bytes, i),
{
    is_char_boundary_iff_not_is_continuation_byte(bytes, i);
}

/// In valid UTF-8, the byte after an ASCII byte that starts a character starts
/// the next one (or is the end).
pub proof fn lemma_after_ascii_is_boundary(bytes: Seq<u8>, i: int)
    requires
        valid_utf8(bytes),
        0 <= i < bytes.len(),
        is_char_boundary(bytes, i),
        bytes[i] < 0x80,
    ensures
        is_char_boundary(bytes, i + 1),
{
    if i + 1 == bytes.len() {
        is_char_boundary_start_end_of_seq(bytes);
    } else {
        let t = bytes.subrange(i, bytes.len() as int);
        valid_utf8_split(bytes, i);
        assert(t[0] == bytes[i]);
        assert(length_of_first_scalar(t) == 1);
        assert(is_char_boundary(pop_first_scalar(t), 0));
        reveal_with_fuel(is_char_boundary, 2);
        assert(is_char_boundary(t, 1));
        is_char_boundary_iff_not_is_continuation_byte(t, 1);
        assert(t[1] == bytes[i + 1]);
        is_char_boundary_iff_not_is_continuation_byte(bytes, i + 1);
    }
}

/// The part of valid UTF-8 from one character boundary on is valid UTF-8, and the
/// boundaries after the cut are the old ones shifted.
pub proof fn lemma_suffix_boundary(bytes: Seq<u8>, i: int, j: int)
    requires
        valid_utf8(bytes),
        0 <= i <= j <= bytes.len(),
        is_char_boundary(bytes, i),
        is_char_boundary(bytes, j),
    ensures
        valid_utf8(bytes.subrange(i, bytes.len() as int)),
        is_char_boundary(bytes.subrange(i, bytes.len() as int), j - i),
{
    let tail = bytes.subrange(i, bytes.len() as int);
    valid_utf8_split(bytes, i);
    if j == bytes.len() {
        is_char_boundary_start_end_of_seq(tail);
    } else {
        is_char_boundary_iff_not_is_continuation_byte(bytes, j);
        is_char_boundary_iff_not_is_continuation_byte(tail, j - i);
    }
}

/// The part of `s` between two byte offsets that fall on character boundaries.
pub fn byte_slice<'a>(s: &'a str, start: usize, end: usize) -> (r: &'a str)
    requires
        start <= end <= s.spec_bytes().len(),
        is_char_boundary(s.spec_bytes(), start as int),
        is_char_boundary(s.spec_bytes(), end as int),
    ensures
        r.spec_bytes() == s.spec_bytes().subrange(start as int, end as int),
        r@ == decode_utf8(s.spec_bytes().subrange(start as int, end as int)),
{
    proof {
        lemma_str_view_decodes(s);
        lemma_suffix_boundary(s.spec_bytes(), start as int, end as int);
    }
    let (_, tail) = s.split_at(start);
    let (mid, _) = tail.split_at(end - start);
    proof {
        lemma_str_view_decodes(mid);
        assert(mid.spec_bytes() =~= s.spec_bytes().subrange(start as int, end as int));
    }
    mid
}

} // verus!
