//! Mapping an editor position (line, UTF-16 column) to a byte offset.

use vstd::prelude::*;
use vstd::string::*;
use vstd::utf8::*;

use crate::names::{find_byte, first_from};
use crate::text::{lead_utf16_units, lead_width, lemma_ascii_boundaries, lemma_next_boundary, NEWLINE};

verus! {

broadcast use {
    vstd::utf8::encode_utf8_valid_utf8,
    vstd::utf8::is_char_boundary_start_end_of_seq,
};

/// A cursor position as an editor reports it: a zero-based line and a
/// zero-based column counted in UTF-16 code units.
#[derive(Clone, Copy, Debug, PartialEq, Eq)]
pub struct Position {
    pub line: u32,
    pub character: u32,
}

/// How many times byte `c` occurs in `b` at or after offset `k`.
pub open spec fn count_from(b: Seq<u8>, c: u8, k: int) -> nat
    decreases b.len() - k,
{
    if k < 0 || k >= b.len() {
        0
    } else {
        (if b[k] == c { 1nat } else { 0nat }) + count_from(b, c, k + 1)
    }
}

/// The number of lines of a text split after each newline: one per newline,
/// plus one for a last line without a newline. Empty text has no line.
pub open spec fn line_count(b: Seq<u8>) -> nat {
    count_from(b, NEWLINE, 0) + if b.len() > 0 && b.last() != NEWLINE {
        1nat
    } else {
        0nat
    }
}

/// Where line number `line` starts, counting lines from the one that starts
/// at `k`; `None` when the text has no such line.
pub open spec fn line_offset(b: Seq<u8>, k: int, line: nat) -> Option<int>
    decreases line,
{
    if k < 0 || k >= b.len() {
        None
    } else if line == 0 {
        Some(k)
    } else {
        line_offset(b, first_from(b, NEWLINE, k) + 1, (line - 1) as nat)
    }
}

/// The end of the line that starts at `k`, just past its newline if it has one.
pub open spec fn line_end(b: Seq<u8>, k: int) -> int {
    let nl = first_from(b, NEWLINE, k);
    if nl < b.len() {
        nl + 1
    } else {
        b.len() as int
    }
}

/// Walking the characters from `i` up to `end`, having counted `units`
/// UTF-16 code units so far: the offset of the first character reached once
/// the count is at least `col`, or `end` when the line runs out first.
pub open spec fn column_offset(b: Seq<u8>, i: int, end: int, units: int, col: int) -> int
    decreases end - i,
{
    if i < 0 || i >= end || i >= b.len() {
        end
    } else if units >= col {
        i
    } else {
        let next = if i + lead_width(b[i]) > end {
            end
        } else {
            i + lead_width(b[i])
        };
        column_offset(b, next, end, units + lead_utf16_units(b[i]), col)
    }
}

/// The byte offset of a position: `None` when the line does not exist; a
/// column past the line's end stays at the end of the line.
pub open spec fn position_offset(b: Seq<u8>, line: nat, col: nat) -> Option<int> {
    match line_offset(b, 0, line) {
        Some(s) => Some(column_offset(b, s, line_end(b, s), 0, col as int)),
        None => None,
    }
}

/// Converts an editor position to a byte offset into the document.
pub fn position_to_byte_offset(doc: &str, position: &Position) -> (r: Option<usize>)
    ensures
        match r {
            Some(o) => position_offset(
                doc.spec_bytes(),
                position.line as nat,
                position.character as nat,
            ) == Some(o as int),
            None => position_offset(
                doc.spec_bytes(),
                position.line as nat,
                position.character as nat,
            ) is None,
        },
        r matches Some(o) ==> o <= doc.spec_bytes().len() && is_char_boundary(
            doc.spec_bytes(),
            o as int,
        ),
{
    let b = doc.as_bytes();
    let len = b.len();
    let mut start: usize = 0;
    let mut line: u32 = 0;
    while line < position.line
        invariant
            b@ == doc.spec_bytes(),
            len == b@.len(),
            line <= position.line,
            start <= len,
            is_char_boundary(b@, start as int),
            line_offset(b@, 0, position.line as nat) == line_offset(
                b@,
                start as int,
                (position.line - line) as nat,
            ),
        decreases position.line - line,
    {
        if start >= len {
            return None;
        }
        let nl = find_byte(b, NEWLINE, start);
        if nl >= len {
            assert(line_offset(b@, nl + 1, (position.line - line - 1) as nat) is None);
            return None;
        }
        proof {
            lemma_ascii_boundaries(b@, nl as int);
        }
        start = nl + 1;
        line = line + 1;
    }
    if start >= len {
        return None;
    }
    assert(line_offset(b@, 0, position.line as nat) == Some(start as int));
    let nl = find_byte(b, NEWLINE, start);
    proof {
        lemma_first_from_bounds(b@, NEWLINE, start as int);
    }
    let end = if nl < len {
        nl + 1
    } else {
        len
    };
    proof {
        if nl < len {
            lemma_ascii_boundaries(b@, nl as int);
        }
    }
    let col = position.character as u64;
    let mut units: u64 = 0;
    let mut i: usize = start;
    while i < end
        invariant
            b@ == doc.spec_bytes(),
            len == b@.len(),
            start <= i <= end <= len,
            end == line_end(b@, start as int),
            line_offset(b@, 0, position.line as nat) == Some(start as int),
            is_char_boundary(b@, i as int),
            is_char_boundary(b@, end as int),
            units <= 0xffff_ffff + 2,
            col == position.character,
            column_offset(b@, start as int, end as int, 0, col as int) == column_offset(
                b@,
                i as int,
                end as int,
                units as int,
                col as int,
            ),
        decreases end - i,
    {
        if units >= col {
            return Some(i);
        }
        let lead = b[i];
        let w: usize = if lead < 0x80 {
            1
        } else if lead < 0xe0 {
            2
        } else if lead < 0xf0 {
            3
        } else {
            4
        };
        let u: u64 = if lead < 0xf0 {
            1
        } else {
            2
        };
        proof {
            lemma_next_boundary(b@, i as int);
        }
        units = units + u;
        if w > end - i {
            i = end;
        } else {
            i = i + w;
        }
    }
    Some(end)
}

proof fn lemma_first_from_skips(b: Seq<u8>, c: u8, k: int, m: int)
    requires
        0 <= k <= m < first_from(b, c, k),
        first_from(b, c, k) <= b.len(),
    ensures
        b[m] != c,
    decreases m - k,
{
    if k < m {
        lemma_first_from_skips(b, c, k + 1, m);
    }
}

proof fn lemma_first_from_bounds(b: Seq<u8>, c: u8, k: int)
    requires
        0 <= k <= b.len(),
    ensures
        k <= first_from(b, c, k) <= b.len(),
        first_from(b, c, k) < b.len() ==> b[first_from(b, c, k)] == c,
    decreases b.len() - k,
{
    if k < b.len() {
        lemma_first_from_bounds(b, c, k + 1);
    }
}

/// The occurrences of `c` from `k` on are those from its first occurrence on.
proof fn lemma_count_skips(b: Seq<u8>, c: u8, k: int)
    requires
        0 <= k <= b.len(),
    ensures
        count_from(b, c, k) == count_from(b, c, first_from(b, c, k)),
    decreases b.len() - k,
{
    if k < b.len() && b[k] != c {
        lemma_count_skips(b, c, k + 1);
    }
}

/// Line `line`, counted from a line that starts at `k`, exists exactly when
/// fewer lines than that follow `k`.
proof fn lemma_lines_from(b: Seq<u8>, k: int, line: nat)
    requires
        0 <= k <= b.len(),
    ensures
        line_offset(b, k, line) is Some <==> line < count_from(b, NEWLINE, k) + if k < b.len()
            && b.last() != NEWLINE {
            1nat
        } else {
            0nat
        },
    decreases line,
{
    if k < b.len() {
        let nl = first_from(b, NEWLINE, k);
        lemma_first_from_bounds(b, NEWLINE, k);
        lemma_count_skips(b, NEWLINE, k);
        if nl < b.len() {
            assert(count_from(b, NEWLINE, nl) == 1 + count_from(b, NEWLINE, nl + 1));
            if line > 0 {
                lemma_lines_from(b, nl + 1, (line - 1) as nat);
            }
            if nl + 1 == b.len() {
                assert(b.last() == NEWLINE);
            } else if nl + 1 < b.len() {
            }
        } else {
            assert(count_from(b, NEWLINE, nl) == 0);
            lemma_first_from_skips(b, NEWLINE, k, b.len() - 1);
            if line > 0 {
                assert(line_offset(b, nl + 1, (line - 1) as nat) is None);
            }
        }
    }
}

/// A position on an existing line maps to an offset within the text, and a
/// position past the last line has no offset.
pub proof fn lemma_position_in_text(b: Seq<u8>, line: nat, col: nat)
    ensures
        line < line_count(b) ==> (position_offset(b, line, col) matches Some(o) && 0 <= o <= b.len()),
        line >= line_count(b) ==> position_offset(b, line, col) is None,
{
    lemma_lines_from(b, 0, line);
    if line < line_count(b) {
        let s = line_offset(b, 0, line)->0;
        lemma_line_offset_bounds(b, 0, line);
        lemma_first_from_bounds(b, NEWLINE, s);
        lemma_column_offset_bounds(b, s, line_end(b, s), 0, col as int);
    }
}

proof fn lemma_line_offset_bounds(b: Seq<u8>, k: int, line: nat)
    ensures
        line_offset(b, k, line) matches Some(s) ==> 0 <= s < b.len(),
    decreases line,
{
    if 0 <= k < b.len() && line > 0 {
        lemma_line_offset_bounds(b, first_from(b, NEWLINE, k) + 1, (line - 1) as nat);
    }
}

proof fn lemma_column_offset_bounds(b: Seq<u8>, i: int, end: int, units: int, col: int)
    requires
        i <= end <= b.len(),
    ensures
        column_offset(b, i, end, units, col) <= end,
        0 <= i ==> 0 <= column_offset(b, i, end, units, col),
    decreases end - i,
{
    if 0 <= i < end && i < b.len() && units < col {
        let next = if i + lead_width(b[i]) > end {
            end
        } else {
            i + lead_width(b[i])
        };
        lemma_column_offset_bounds(b, next, end, units + lead_utf16_units(b[i]), col);
    }
}

} // verus!
