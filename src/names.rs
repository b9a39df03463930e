//! Reading the instance name that a factory call's first argument spells out.

use vstd::prelude::*;
use vstd::string::*;
use vstd::utf8::*;

use crate::text::{
    byte_slice, lemma_ascii_boundaries, utf8, BACKTICK, CLOSE_BRACKET, COMMA, DOUBLE_QUOTE,
    OPEN_BRACKET, SINGLE_QUOTE,
};

verus! {

broadcast use {
    vstd::utf8::encode_utf8_valid_utf8,
    vstd::utf8::encode_utf8_decode_utf8,
    vstd::utf8::is_char_boundary_start_end_of_seq,
};

/// The first offset at or after `k` that holds byte `c`, or the length of `b`.
pub open spec fn first_from(b: Seq<u8>, c: u8, k: int) -> int
    decreases b.len() - k,
{
    if k >= b.len() {
        b.len() as int
    } else if k >= 0 && b[k] == c {
        k
    } else {
        first_from(b, c, k + 1)
    }
}

/// Characters with the Unicode `White_Space` property.
pub open spec fn is_white_space(c: char) -> bool {
    let u = c as u32;
    (0x09 <= u <= 0x0d) || u == 0x20 || u == 0x85 || u == 0xa0 || u == 0x1680 || (0x2000 <= u
        <= 0x200a) || u == 0x2028 || u == 0x2029 || u == 0x202f || u == 0x205f || u == 0x3000
}

/// `s` without its leading white space.
pub open spec fn trim_start(s: Seq<char>) -> Seq<char>
    decreases s.len(),
{
    if s.len() > 0 && is_white_space(s[0]) {
        trim_start(s.drop_first())
    } else {
        s
    }
}

/// `s` without its trailing white space.
pub open spec fn trim_end(s: Seq<char>) -> Seq<char>
    decreases s.len(),
{
    if s.len() > 0 && is_white_space(s.last()) {
        trim_end(s.drop_last())
    } else {
        s
    }
}

/// `s` without leading or trailing white space.
pub open spec fn trim_white_space(s: Seq<char>) -> Seq<char> {
    trim_end(trim_start(s))
}

/// The bytes of the first comma-separated argument of an argument list, trimmed.
pub open spec fn first_argument_bytes(b: Seq<u8>) -> Seq<u8> {
    utf8(trim_white_space(decode_utf8(b.subrange(0, first_from(b, COMMA, 0)))))
}

/// Whether `c` opens a quoted string literal.
pub open spec fn is_quote(c: u8) -> bool {
    c == DOUBLE_QUOTE || c == SINGLE_QUOTE || c == BACKTICK
}

/// The contents of `t` when it is one quoted literal (`"..."`, `'...'` or `` `...` ``).
pub open spec fn quoted_contents(t: Seq<u8>) -> Option<Seq<u8>> {
    if t.len() >= 2 && is_quote(t[0]) && t[t.len() - 1] == t[0] {
        Some(t.subrange(1, t.len() - 1))
    } else {
        None
    }
}

/// The contents of `t` when it is one long-bracket literal (`[[...]]`).
pub open spec fn long_bracket_contents(t: Seq<u8>) -> Option<Seq<u8>> {
    if t.len() >= 4 && t[0] == OPEN_BRACKET && t[1] == OPEN_BRACKET && t[t.len() - 2]
        == CLOSE_BRACKET && t[t.len() - 1] == CLOSE_BRACKET {
        Some(t.subrange(2, t.len() - 2))
    } else {
        None
    }
}

/// The contents of `t` when it is one string literal of any form.
pub open spec fn literal_contents(t: Seq<u8>) -> Option<Seq<u8>> {
    if long_bracket_contents(t) is Some {
        long_bracket_contents(t)
    } else {
        quoted_contents(t)
    }
}

/// The instance name of an argument list: the contents of its first
/// argument, when that argument is a single string literal.
pub open spec fn span_instance_name(span: Seq<char>) -> Option<Seq<u8>> {
    literal_contents(first_argument_bytes(utf8(span)))
}

pub(crate) fn find_byte(b: &[u8], c: u8, from: usize) -> (r: usize)
    ensures
        r == first_from(b@, c, from as int),
        r <= b@.len(),
        r < b@.len() ==> b@[r as int] == c,
{
    let mut k: usize = from;
    if k > b.len() {
        k = b.len();
    }
    while k < b.len()
        invariant
            from <= k || k == b@.len(),
            k <= b@.len(),
            first_from(b@, c, from as int) == first_from(b@, c, k as int),
        decreases b@.len() - k,
    {
        if b[k] == c {
            return k;
        }
        k = k + 1;
    }
    b.len()
}

/// Relies on `str::trim`: the text without leading and trailing characters
/// of the Unicode `White_Space` property.
#[verifier::external_body]
fn trimmed(s: &str) -> (r: &str)
    ensures
        r@ == trim_white_space(s@),
{
    s.trim()
}

fn first_argument(span: &str) -> (t: &str)
    ensures
        t.spec_bytes() == first_argument_bytes(span.spec_bytes()),
{
    let b = span.as_bytes();
    let p = find_byte(b, COMMA, 0);
    proof {
        if p < b@.len() {
            lemma_ascii_boundaries(b@, p as int);
        }
        assert(is_char_boundary(b@, b@.len() as int));
        assert(is_char_boundary(b@, 0));
    }
    let head = byte_slice(span, 0, p);
    trimmed(head)
}

fn quoted_text(t: &str) -> (r: Option<String>)
    ensures
        match r {
            Some(n) => quoted_contents(t.spec_bytes()) == Some(utf8(n@)),
            None => quoted_contents(t.spec_bytes()) is None,
        },
{
    let tb = t.as_bytes();
    let n = tb.len();
    if n >= 2 && (tb[0] == DOUBLE_QUOTE || tb[0] == SINGLE_QUOTE || tb[0] == BACKTICK) && tb[n
        - 1] == tb[0] {
        proof {
            lemma_ascii_boundaries(tb@, 0);
            lemma_ascii_boundaries(tb@, n - 1);
        }
        Some(String::from_str(byte_slice(t, 1, n - 1)))
    } else {
        None
    }
}

/// The instance name a factory call's argument list names: the contents of
/// its first argument when that is one quoted or long-bracket literal.
pub fn extract_name_from_span(span: &str) -> (r: Option<String>)
    ensures
        match r {
            Some(n) => span_instance_name(span@) == Some(utf8(n@)),
            None => span_instance_name(span@) is None,
        },
{
    let t = first_argument(span);
    let tb = t.as_bytes();
    let n = tb.len();
    if n >= 4 && tb[0] == OPEN_BRACKET && tb[1] == OPEN_BRACKET && tb[n - 2] == CLOSE_BRACKET
        && tb[n - 1] == CLOSE_BRACKET {
        proof {
            lemma_ascii_boundaries(tb@, 1);
            lemma_ascii_boundaries(tb@, n - 2);
        }
        return Some(String::from_str(byte_slice(t, 2, n - 2)));
    }
    quoted_text(t)
}

/// The instance name an argument list names, when its first argument is
/// one quoted literal (`"..."`, `'...'` or `` `...` ``).
pub fn extract_react_inst_name(args: &str) -> (r: Option<String>)
    ensures
        match r {
            Some(n) => quoted_contents(first_argument_bytes(utf8(args@))) == Some(utf8(n@)),
            None => quoted_contents(first_argument_bytes(utf8(args@))) is None,
        },
{
    quoted_text(first_argument(args))
}

} // verus!
