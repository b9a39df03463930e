//! Byte-level views of UTF-8 text and the facts about character boundaries
//! that slicing a `str` needs.

use vstd::prelude::*;
use vstd::string::*;
use vstd::utf8::*;

verus! {

broadcast use {
    vstd::utf8::encode_utf8_valid_utf8,
    vstd::utf8::encode_utf8_decode_utf8,
    vstd::utf8::is_char_boundary_iff_not_is_continuation_byte,
    vstd::utf8::is_char_boundary_start_end_of_seq,
    vstd::utf8::valid_utf8_split,
};

pub const NEWLINE: u8 = 0x0a;
pub const DOUBLE_QUOTE: u8 = 0x22;
pub const SINGLE_QUOTE: u8 = 0x27;
pub const OPEN_PAREN: u8 = 0x28;
pub const CLOSE_PAREN: u8 = 0x29;
pub const COMMA: u8 = 0x2c;
pub const DOT: u8 = 0x2e;
pub const SEMICOLON: u8 = 0x3b;
pub const EQUALS: u8 = 0x3d;
pub const OPEN_BRACKET: u8 = 0x5b;
pub const CLOSE_BRACKET: u8 = 0x5d;
pub const BACKTICK: u8 = 0x60;
pub const OPEN_BRACE: u8 = 0x7b;
pub const CLOSE_BRACE: u8 = 0x7d;

/// The UTF-8 bytes of a character sequence.
pub open spec fn utf8(s: Seq<char>) -> Seq<u8> {
    encode_utf8(s)
}

/// Number of bytes in the encoding of the character whose first byte is `lead`.
pub open spec fn lead_width(lead: u8) -> int {
    if lead < 0x80 {
        1
    } else if lead < 0xe0 {
        2
    } else if lead < 0xf0 {
        3
    } else {
        4
    }
}

/// Number of UTF-16 code units of the character whose first byte is `lead`.
pub open spec fn lead_utf16_units(lead: u8) -> int {
    if lead < 0xf0 {
        1
    } else {
        2
    }
}

/// Stepping over one character from a boundary lands on the next boundary.
pub proof fn lemma_next_boundary(b: Seq<u8>, i: int)
    requires
        valid_utf8(b),
        0 <= i < b.len(),
        is_char_boundary(b, i),
    ensures
        i + lead_width(b[i]) <= b.len(),
        is_char_boundary(b, i + lead_width(b[i])),
    decreases b.len(),
{
    let l = length_of_first_scalar(b);
    let rest = pop_first_scalar(b);
    assert(valid_first_scalar(b));
    assert(valid_utf8(rest));
    if i == 0 {
        assert(lead_width(b[0]) == l);
        assert(is_char_boundary(rest, 0));
    } else {
        assert(is_char_boundary(rest, i - l));
        assert(rest[i - l] == b[i]);
        lemma_next_boundary(rest, i - l);
        assert(is_char_boundary(rest, i - l + lead_width(b[i])));
    }
}

/// Both sides of an ASCII byte are character boundaries.
pub proof fn lemma_ascii_boundaries(b: Seq<u8>, i: int)
    requires
        valid_utf8(b),
        0 <= i < b.len(),
        b[i] < 0x80,
    ensures
        is_char_boundary(b, i),
        is_char_boundary(b, i + 1),
{
    assert(!is_continuation_byte(b[i]));
    lemma_next_boundary(b, i);
}

/// A boundary of `b` at or after `from` is a boundary of the suffix from `from`.
pub proof fn lemma_boundary_in_suffix(b: Seq<u8>, from: int, to: int)
    requires
        valid_utf8(b),
        0 <= from <= to <= b.len(),
        is_char_boundary(b, from),
        is_char_boundary(b, to),
    ensures
        valid_utf8(b.subrange(from, b.len() as int)),
        is_char_boundary(b.subrange(from, b.len() as int), to - from),
{
    let tail = b.subrange(from, b.len() as int);
    assert(valid_utf8(tail));
    if to == b.len() {
        assert(to - from == tail.len());
        is_char_boundary_start_end_of_seq(tail);
    } else if to > from {
        assert(tail[to - from] == b[to]);
        is_char_boundary_iff_not_is_continuation_byte(b, to as int);
        is_char_boundary_iff_not_is_continuation_byte(tail, to - from);
    } else {
        is_char_boundary_start_end_of_seq(tail);
    }
}

/// The text of `s` between the byte offsets `from` and `to`.
pub fn byte_slice(s: &str, from: usize, to: usize) -> (r: &str)
    requires
        from <= to <= s.spec_bytes().len(),
        is_char_boundary(s.spec_bytes(), from as int),
        is_char_boundary(s.spec_bytes(), to as int),
    ensures
        r.spec_bytes() == s.spec_bytes().subrange(from as int, to as int),
        r@ == decode_utf8(s.spec_bytes().subrange(from as int, to as int)),
{
    let ghost b = s.spec_bytes();
    proof {
        lemma_boundary_in_suffix(b, from as int, to as int);
    }
    let (_, tail) = s.split_at(from);
    assert(tail.spec_bytes() =~= b.subrange(from as int, b.len() as int));
    let (mid, _) = tail.split_at(to - from);
    assert(mid.spec_bytes() =~= b.subrange(from as int, to as int));
    proof {
        assert(decode_utf8(utf8(mid@)) == mid@);
    }
    mid
}

} // verus!
