//! White space around a value: which byte sequences count as one white-space
//! character, and how they are stripped from both ends of a text.
//!
//! The characters are those that Unicode marks as `White_Space`, each in its
//! UTF-8 encoding. A text is stripped byte-wise: since no encoding of one
//! character is the end or the start of another's, this takes away exactly
//! the white-space characters that stand first and last in the text.

use vstd::prelude::*;
use vstd::slice::slice_subrange;

verus! {

/// A white-space character of one byte: U+0009 to U+000D, and U+0020.
pub open spec fn is_space_1(b: u8) -> bool {
    (0x09 <= b <= 0x0D) || b == 0x20
}

/// A white-space character of two bytes: U+0085 or U+00A0.
pub open spec fn is_space_2(b0: u8, b1: u8) -> bool {
    b0 == 0xC2 && (b1 == 0x85 || b1 == 0xA0)
}

/// A white-space character of three bytes: U+1680, U+2000 to U+200A,
/// U+2028, U+2029, U+202F, U+205F or U+3000.
pub open spec fn is_space_3(b0: u8, b1: u8, b2: u8) -> bool {
    ||| b0 == 0xE1 && b1 == 0x9A && b2 == 0x80
    ||| b0 == 0xE2 && b1 == 0x80 && (0x80 <= b2 <= 0x8A || b2 == 0xA8 || b2 == 0xA9 || b2 == 0xAF)
    ||| b0 == 0xE2 && b1 == 0x81 && b2 == 0x9F
    ||| b0 == 0xE3 && b1 == 0x80 && b2 == 0x80
}

/// The length in bytes of the white-space character that the text begins
/// with; 0 if it begins with none.
pub open spec fn space_width_front(text: Seq<u8>) -> nat {
    if text.len() >= 1 && is_space_1(text[0]) {
        1
    } else if text.len() >= 2 && is_space_2(text[0], text[1]) {
        2
    } else if text.len() >= 3 && is_space_3(text[0], text[1], text[2]) {
        3
    } else {
        0
    }
}

/// The length in bytes of the white-space character that the text ends
/// with; 0 if it ends with none.
pub open spec fn space_width_back(text: Seq<u8>) -> nat {
    let n = text.len() as int;
    if n >= 1 && is_space_1(text[n - 1]) {
        1
    } else if n >= 2 && is_space_2(text[n - 2], text[n - 1]) {
        2
    } else if n >= 3 && is_space_3(text[n - 3], text[n - 2], text[n - 1]) {
        3
    } else {
        0
    }
}

/// The text without the white space that it begins with.
pub open spec fn trim_front(text: Seq<u8>) -> Seq<u8>
    decreases text.len(),
{
    let width = space_width_front(text);
    if width == 0 {
        text
    } else {
        trim_front(text.skip(width as int))
    }
}

/// The text without the white space that it ends with.
pub open spec fn trim_back(text: Seq<u8>) -> Seq<u8>
    decreases text.len(),
{
    let width = space_width_back(text);
    if width == 0 {
        text
    } else {
        trim_back(text.take(text.len() - width))
    }
}

/// The text without the white space around it.
pub open spec fn trimmed(text: Seq<u8>) -> Seq<u8> {
    trim_back(trim_front(text))
}

/// What is left after stripping neither begins nor ends with white space.
pub proof fn lemma_trimmed_is_bare(text: Seq<u8>)
    ensures
        space_width_front(trimmed(text)) == 0,
        space_width_back(trimmed(text)) == 0,
{
    lemma_trim_front_is_bare(text);
    lemma_trim_back_keeps_front(trim_front(text));
}

/// What is left after stripping the front begins with no white space.
proof fn lemma_trim_front_is_bare(text: Seq<u8>)
    ensures
        space_width_front(trim_front(text)) == 0,
    decreases text.len(),
{
    let width = space_width_front(text);
    if width != 0 {
        lemma_trim_front_is_bare(text.skip(width as int));
    }
}

/// Stripping the back of a text that begins with no white space leaves a
/// text that neither begins nor ends with any.
proof fn lemma_trim_back_keeps_front(text: Seq<u8>)
    requires
        space_width_front(text) == 0,
    ensures
        space_width_back(trim_back(text)) == 0,
        space_width_front(trim_back(text)) == 0,
    decreases text.len(),
{
    let width = space_width_back(text);
    if width != 0 {
        let shorter = text.take(text.len() - width);
        assert(space_width_front(shorter) == 0) by {
            if shorter.len() >= 1 {
                assert(shorter[0] == text[0]);
            }
            if shorter.len() >= 2 {
                assert(shorter[1] == text[1]);
            }
            if shorter.len() >= 3 {
                assert(shorter[2] == text[2]);
            }
        }
        lemma_trim_back_keeps_front(shorter);
    }
}

/// Tells whether a byte is a white-space character of one byte.
fn is_space_1_byte(b: u8) -> (yes: bool)
    ensures
        yes == is_space_1(b),
{
    (0x09 <= b && b <= 0x0D) || b == 0x20
}

/// Tells whether two bytes are a white-space character of two bytes.
fn is_space_2_bytes(b0: u8, b1: u8) -> (yes: bool)
    ensures
        yes == is_space_2(b0, b1),
{
    b0 == 0xC2 && (b1 == 0x85 || b1 == 0xA0)
}

/// Tells whether three bytes are a white-space character of three bytes.
fn is_space_3_bytes(b0: u8, b1: u8, b2: u8) -> (yes: bool)
    ensures
        yes == is_space_3(b0, b1, b2),
{
    (b0 == 0xE1 && b1 == 0x9A && b2 == 0x80) || (b0 == 0xE2 && b1 == 0x80 && ((0x80 <= b2 && b2
        <= 0x8A) || b2 == 0xA8 || b2 == 0xA9 || b2 == 0xAF)) || (b0 == 0xE2 && b1 == 0x81 && b2
        == 0x9F) || (b0 == 0xE3 && b1 == 0x80 && b2 == 0x80)
}

/// Measures the white-space character that a text begins with.
fn leading_space(text: &[u8]) -> (width: usize)
    ensures
        width == space_width_front(text@),
{
    let n: usize = text.len();
    if n >= 1 && is_space_1_byte(text[0]) {
        1
    } else if n >= 2 && is_space_2_bytes(text[0], text[1]) {
        2
    } else if n >= 3 && is_space_3_bytes(text[0], text[1], text[2]) {
        3
    } else {
        0
    }
}

/// Measures the white-space character that a text ends with.
fn trailing_space(text: &[u8]) -> (width: usize)
    ensures
        width == space_width_back(text@),
{
    let n: usize = text.len();
    if n >= 1 && is_space_1_byte(text[n - 1]) {
        1
    } else if n >= 2 && is_space_2_bytes(text[n - 2], text[n - 1]) {
        2
    } else if n >= 3 && is_space_3_bytes(text[n - 3], text[n - 2], text[n - 1]) {
        3
    } else {
        0
    }
}

/// Strips the white space around a text.
pub fn trim(text: &[u8]) -> (bare: &[u8])
    ensures
        bare@ == trimmed(text@),
{
    let mut rest: &[u8] = text;
    loop
        invariant
            trim_front(rest@) == trim_front(text@),
        ensures
            rest@ == trim_front(text@),
        decreases rest@.len(),
    {
        let width: usize = leading_space(rest);
        if width == 0 {
            break ;
        }
        assert(rest@.skip(width as int) =~= rest@.subrange(width as int, rest@.len() as int));
        rest = slice_subrange(rest, width, rest.len());
    }
    let ghost front = rest@;
    loop
        invariant
            trim_back(rest@) == trim_back(front),
        ensures
            rest@ == trim_back(front),
        decreases rest@.len(),
    {
        let width: usize = trailing_space(rest);
        if width == 0 {
            break ;
        }
        assert(rest@.take(rest@.len() - width) =~= rest@.subrange(0, rest@.len() - width));
        rest = slice_subrange(rest, 0, rest.len() - width);
    }
    rest
}

} // verus!
