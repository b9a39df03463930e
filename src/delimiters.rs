//! Balanced-delimiter scanning and the backward scan that tells a value
//! position from a key position.

use vstd::prelude::*;
use vstd::string::*;

use crate::text::{
    CLOSE_BRACE, CLOSE_BRACKET, CLOSE_PAREN, COMMA, EQUALS, NEWLINE, OPEN_BRACE, OPEN_BRACKET,
    OPEN_PAREN, SEMICOLON,
};

verus! {

/// The change in nesting depth that byte `c` causes.
pub open spec fn depth_step(c: u8, open: u8, close: u8) -> int {
    if c == open {
        1
    } else if c == close {
        -1
    } else {
        0
    }
}

/// Nesting depth after scanning `b[start..j]`, starting inside one open delimiter.
pub open spec fn depth(b: Seq<u8>, start: int, j: int, open: u8, close: u8) -> int
    decreases j - start,
{
    if j <= start {
        1
    } else {
        depth(b, start, j - 1, open, close) + depth_step(b[j - 1], open, close)
    }
}

/// The first offset at or after `k` holding a `close` that brings the depth
/// counted from `start` back to zero; the length of `b` when none does.
pub open spec fn close_from(b: Seq<u8>, start: int, k: int, open: u8, close: u8) -> int
    decreases b.len() - k,
{
    if k >= b.len() {
        b.len() as int
    } else if b[k] == close && depth(b, start, k + 1, open, close) == 0 {
        k
    } else {
        close_from(b, start, k + 1, open, close)
    }
}

/// Where the delimiter opened just before `start` closes: the offset of the
/// matching `close`, or the length of `b` when it never closes.
pub open spec fn closing_offset(b: Seq<u8>, start: int, open: u8, close: u8) -> int {
    close_from(b, start, if start < 0 { 0 } else { start }, open, close)
}

/// Whether scanning backward from offset `i` meets `=` before a newline, `,` or `;`.
pub open spec fn assigned_before(b: Seq<u8>, i: int) -> bool
    decreases i,
{
    if i <= 0 || i > b.len() {
        false
    } else if b[i - 1] == EQUALS {
        true
    } else if b[i - 1] == NEWLINE || b[i - 1] == COMMA || b[i - 1] == SEMICOLON {
        false
    } else {
        assigned_before(b, i - 1)
    }
}

pub(crate) fn match_close(b: &[u8], start: usize, open: u8, close: u8) -> (r: usize)
    ensures
        r == closing_offset(b@, start as int, open, close),
        r <= b@.len(),
        r < b@.len() ==> b@[r as int] == close,
{
    if start >= b.len() {
        return b.len();
    }
    // `extra` counts the delimiters opened inside the span and not yet closed.
    let mut extra: usize = 0;
    let mut k: usize = start;
    while k < b.len()
        invariant
            start <= k <= b@.len(),
            extra + 1 == depth(b@, start as int, k as int, open, close),
            extra <= k - start,
            closing_offset(b@, start as int, open, close) == close_from(
                b@,
                start as int,
                k as int,
                open,
                close,
            ),
        decreases b@.len() - k,
    {
        let c = b[k];
        assert(depth(b@, start as int, k + 1, open, close) == extra + 1 + depth_step(
            c,
            open,
            close,
        ));
        if c == open {
            extra = extra + 1;
        } else if c == close {
            if extra == 0 {
                return k;
            }
            extra = extra - 1;
        }
        k = k + 1;
    }
    b.len()
}

/// The scan from `k` ends at `k` or later, and never past the end.
pub proof fn lemma_close_from_bounds(b: Seq<u8>, start: int, k: int, open: u8, close: u8)
    requires
        0 <= k <= b.len(),
    ensures
        k <= close_from(b, start, k, open, close) <= b.len(),
    decreases b.len() - k,
{
    if k < b.len() {
        lemma_close_from_bounds(b, start, k + 1, open, close);
    }
}

/// Offset of the `)` that closes the `(` just before `start`, or the text's
/// length when it never closes.
pub fn find_mattching_paren(doc: &str, start: usize) -> (r: usize)
    ensures
        r == closing_offset(doc.spec_bytes(), start as int, OPEN_PAREN, CLOSE_PAREN),
{
    match_close(doc.as_bytes(), start, OPEN_PAREN, CLOSE_PAREN)
}

/// Offset of the `}` that closes the `{` just before `start`, or the text's
/// length when it never closes.
pub fn find_matching_brace(doc: &str, start: usize) -> (r: usize)
    ensures
        r == closing_offset(doc.spec_bytes(), start as int, OPEN_BRACE, CLOSE_BRACE),
{
    match_close(doc.as_bytes(), start, OPEN_BRACE, CLOSE_BRACE)
}

/// Offset of the `]` that closes the `[` just before `start`, or the text's
/// length when it never closes.
pub fn find_matching_bracket(doc: &str, start: usize) -> (r: usize)
    ensures
        r == closing_offset(doc.spec_bytes(), start as int, OPEN_BRACKET, CLOSE_BRACKET),
{
    match_close(doc.as_bytes(), start, OPEN_BRACKET, CLOSE_BRACKET)
}

/// Whether the cursor stands in a value expression: scanning backward from
/// `cursor_byte_offset`, an `=` comes before any newline, `,` or `;`.
pub fn context_is_assignment(doc: &str, cursor_byte_offset: usize) -> (r: bool)
    ensures
        r == assigned_before(doc.spec_bytes(), cursor_byte_offset as int),
{
    let b = doc.as_bytes();
    if cursor_byte_offset > b.len() {
        return false;
    }
    let mut i: usize = cursor_byte_offset;
    while i > 0
        invariant
            b@ == doc.spec_bytes(),
            i <= cursor_byte_offset <= b@.len(),
            assigned_before(b@, cursor_byte_offset as int) == assigned_before(b@, i as int),
        decreases i,
    {
        let c = b[i - 1];
        if c == EQUALS {
            return true;
        }
        if c == NEWLINE || c == COMMA || c == SEMICOLON {
            return false;
        }
        i = i - 1;
    }
    false
}

/// The depth counted over a span is the depth counted over the same bytes
/// cut out of the text.
proof fn lemma_depth_shift(b: Seq<u8>, start: int, end: int, j: int, open: u8, close: u8)
    requires
        0 <= start <= end <= b.len(),
        0 <= j <= end - start,
    ensures
        depth(b.subrange(start, end), 0, j, open, close) == depth(b, start, start + j, open, close),
    decreases j,
{
    if j > 0 {
        lemma_depth_shift(b, start, end, j - 1, open, close);
    }
}

/// Every offset from `k` up to `close_from(.., k, ..)` is passed over without closing.
proof fn lemma_close_from_first(b: Seq<u8>, start: int, k: int, m: int, open: u8, close: u8)
    requires
        0 <= k <= m < close_from(b, start, k, open, close),
    ensures
        !(b[m] == close && depth(b, start, m + 1, open, close) == 0),
    decreases m - k,
{
    if k < m {
        lemma_close_from_first(b, start, k + 1, m, open, close);
    }
}

/// Scanning a span in which nothing closes runs to the span's end.
proof fn lemma_no_close_runs_out(s: Seq<u8>, k: int, open: u8, close: u8)
    requires
        0 <= k <= s.len(),
        forall|m: int|
            k <= m < s.len() ==> !(s[m] == close && #[trigger] depth(s, 0, m + 1, open, close) == 0),
    ensures
        close_from(s, 0, k, open, close) == s.len(),
    decreases s.len() - k,
{
    if k < s.len() {
        lemma_no_close_runs_out(s, k + 1, open, close);
    }
}

/// Matching again inside a span that closes never reaches past the span: the
/// bytes between an opening delimiter and its match hold no earlier match.
pub proof fn lemma_rematch_stays_inside(b: Seq<u8>, start: int, open: u8, close: u8)
    requires
        0 <= start <= b.len(),
        closing_offset(b, start, open, close) < b.len(),
    ensures
        closing_offset(
            b.subrange(start, closing_offset(b, start, open, close)),
            0,
            open,
            close,
        ) == closing_offset(b, start, open, close) - start,
{
    let end = closing_offset(b, start, open, close);
    lemma_close_from_bounds(b, start, start, open, close);
    let s = b.subrange(start, end);
    assert forall|m: int| 0 <= m < s.len() implies !(s[m] == close && #[trigger] depth(
        s,
        0,
        m + 1,
        open,
        close,
    ) == 0) by {
        lemma_depth_shift(b, start, end, m + 1, open, close);
        lemma_close_from_first(b, start, start, start + m, open, close);
    }
    lemma_no_close_runs_out(s, 0, open, close);
}

} // verus!
