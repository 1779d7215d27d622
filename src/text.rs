//! Facts about source text: character classes and UTF-8 byte offsets.

use vstd::prelude::*;
use vstd::utf8::{encode_scalar, encode_utf8, char_is_scalar};

verus! {

broadcast use vstd::seq::group_seq_axioms, vstd::seq_lib::group_seq_properties;

/// Whether a character has Unicode's White_Space property: the
/// characters U+0009 to U+000D, U+0020, U+0085, U+00A0, U+1680, U+2000
/// to U+200A, U+2028, U+2029, U+202F, U+205F and U+3000.
pub open spec fn white_space(c: char) -> bool {
    let v = c as u32;
    ||| 0x09 <= v <= 0x0D
    ||| v == 0x20 || v == 0x85 || v == 0xA0 || v == 0x1680
    ||| 0x2000 <= v <= 0x200A
    ||| v == 0x2028 || v == 0x2029 || v == 0x202F || v == 0x205F || v == 0x3000
}

/// Relies on `char::is_whitespace`, which is true exactly for the
/// characters with the Unicode White_Space property.
#[verifier::external_body]
pub(crate) fn is_white(c: char) -> (r: bool)
    ensures
        r == white_space(c),
{
    c.is_whitespace()
}

/// Number of bytes that the UTF-8 encoding of the first `i` characters
/// of `cs` takes.
pub open spec fn byte_offset(cs: Seq<char>, i: int) -> int {
    encode_utf8(cs.subrange(0, i)).len() as int
}

/// Number of bytes in the UTF-8 encoding of `c`.
pub fn utf8_width(c: char) -> (w: u32)
    ensures
        w == encode_scalar(c as u32).len(),
        1 <= w <= 4,
{
    proof {
        char_is_scalar(c);
    }
    let v = c as u32;
    if v <= 0x7F {
        1
    } else if v <= 0x7FF {
        2
    } else if v <= 0xFFFF {
        3
    } else {
        4
    }
}

/// Encoding a concatenation encodes each part in turn.
pub proof fn lemma_encode_concat(a: Seq<char>, b: Seq<char>)
    ensures
        encode_utf8(a + b) == encode_utf8(a) + encode_utf8(b),
    decreases a.len(),
{
    if a.len() == 0 {
        assert(a + b =~= b);
        assert(encode_utf8(a) =~= seq![]);
        assert(encode_utf8(a) + encode_utf8(b) =~= encode_utf8(b));
    } else {
        assert((a + b).drop_first() =~= a.drop_first() + b);
        lemma_encode_concat(a.drop_first(), b);
        assert(encode_utf8(a + b) =~= encode_scalar(a[0] as u32) + encode_utf8(a.drop_first() + b));
        assert(encode_utf8(a + b) =~= encode_utf8(a) + encode_utf8(b));
    }
}

/// Each character moves the byte offset on by its own width.
pub proof fn lemma_byte_offset_step(cs: Seq<char>, i: int)
    requires
        0 <= i < cs.len(),
    ensures
        byte_offset(cs, i + 1) == byte_offset(cs, i) + encode_scalar(cs[i] as u32).len(),
{
    let one = seq![cs[i]];
    assert(cs.subrange(0, i + 1) =~= cs.subrange(0, i) + one);
    lemma_encode_concat(cs.subrange(0, i), one);
    assert(one.drop_first() =~= Seq::<char>::empty());
    assert(encode_utf8(one) =~= encode_scalar(cs[i] as u32) + encode_utf8(one.drop_first()));
}

/// The bytes between two offsets are the encoding of the characters
/// between the two positions.
pub proof fn lemma_byte_range(cs: Seq<char>, i: int, j: int)
    requires
        0 <= i <= j <= cs.len(),
    ensures
        byte_offset(cs, i) <= byte_offset(cs, j) <= byte_offset(cs, cs.len() as int),
        encode_utf8(cs).subrange(byte_offset(cs, i), byte_offset(cs, j)) == encode_utf8(
            cs.subrange(i, j),
        ),
{
    let n = cs.len() as int;
    assert(cs =~= cs.subrange(0, i) + cs.subrange(i, j) + cs.subrange(j, n));
    assert(cs.subrange(0, j) =~= cs.subrange(0, i) + cs.subrange(i, j));
    lemma_encode_concat(cs.subrange(0, i), cs.subrange(i, j));
    lemma_encode_concat(cs.subrange(0, i) + cs.subrange(i, j), cs.subrange(j, n));
    assert(cs.subrange(0, n) =~= cs);
    let e0 = encode_utf8(cs.subrange(0, i));
    let e1 = encode_utf8(cs.subrange(i, j));
    let e2 = encode_utf8(cs.subrange(j, n));
    assert(encode_utf8(cs) =~= e0 + e1 + e2);
    assert((e0 + e1 + e2).subrange(e0.len() as int, (e0.len() + e1.len()) as int) =~= e1);
}

/// Every character takes at least one byte.
pub proof fn lemma_encode_len(cs: Seq<char>)
    ensures
        encode_utf8(cs).len() >= cs.len(),
    decreases cs.len(),
{
    if cs.len() > 0 {
        char_is_scalar(cs[0]);
        lemma_encode_len(cs.drop_first());
    }
}

/// The byte offset grows with the character position.
pub proof fn lemma_byte_offset_grows(cs: Seq<char>, i: int, j: int)
    requires
        0 <= i < j <= cs.len(),
    ensures
        byte_offset(cs, i) < byte_offset(cs, j),
{
    lemma_byte_range(cs, i, j);
    lemma_encode_len(cs.subrange(i, j));
    assert(cs.subrange(0, cs.len() as int) =~= cs);
    assert(encode_utf8(cs).subrange(byte_offset(cs, i), byte_offset(cs, j)).len() == byte_offset(
        cs,
        j,
    ) - byte_offset(cs, i));
}

} // verus!
