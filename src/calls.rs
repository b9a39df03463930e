//! The argument spans of factory calls: `<binding>.createElement(...)` and
//! `<alias>(...)` for each alias of it.

use vstd::prelude::*;
use vstd::string::*;
use vstd::utf8::*;

use crate::delimiters::{closing_offset, lemma_close_from_bounds, match_close};
use crate::locate::{get_create_element_macros, string_views, text_before, CREATE_ELEMENT};
use crate::patterns::regex_all_captures;
use crate::text::{byte_slice, lemma_ascii_boundaries, utf8, CLOSE_PAREN, OPEN_PAREN};

verus! {

broadcast use {
    vstd::utf8::encode_utf8_valid_utf8,
    vstd::utf8::encode_utf8_decode_utf8,
    vstd::utf8::is_char_boundary_start_end_of_seq,
};

/// The bytes that open a direct factory call: `<binding>.createElement(`.
pub open spec fn factory_call_open(binding: Seq<char>) -> Seq<u8> {
    utf8(binding) + utf8(CREATE_ELEMENT@) + seq![OPEN_PAREN]
}

/// The bytes that open a call through an alias: `<alias>(`.
pub open spec fn alias_call_open(alias: Seq<char>) -> Seq<u8> {
    utf8(alias) + seq![OPEN_PAREN]
}

/// For each occurrence of `opener` in `b` at or after `k`, scanning left to
/// right without overlap, the span of the call's arguments: from just after
/// the opener to the matching `)`, or to the end of `b` when it never closes.
pub open spec fn call_spans(b: Seq<u8>, opener: Seq<u8>, k: int) -> Seq<(int, int)>
    decreases b.len() - k,
{
    if opener.len() == 0 || k < 0 || k + opener.len() > b.len() {
        seq![]
    } else if b.subrange(k, k + opener.len()) == opener {
        let s = k + opener.len();
        seq![(s, closing_offset(b, s, OPEN_PAREN, CLOSE_PAREN))] + call_spans(b, opener, s)
    } else {
        call_spans(b, opener, k + 1)
    }
}

/// The call spans reached through each alias in `aliases`, alias by alias.
pub open spec fn alias_spans(b: Seq<u8>, aliases: Seq<Seq<char>>) -> Seq<(int, int)>
    decreases aliases.len(),
{
    if aliases.len() == 0 {
        seq![]
    } else {
        alias_spans(b, aliases.drop_last()) + call_spans(b, alias_call_open(aliases.last()), 0)
    }
}

/// `groups` lists the spans `spans` of `b`, each with its text.
pub open spec fn groups_are(b: Seq<u8>, groups: Seq<(usize, usize, String)>, spans: Seq<(int, int)>) -> bool {
    &&& groups.len() == spans.len()
    &&& forall|i: int|
        0 <= i < groups.len() ==> {
            &&& (#[trigger] groups[i]).0 == spans[i].0
            &&& groups[i].1 == spans[i].1
            &&& spans[i].0 <= spans[i].1 <= b.len()
            &&& utf8(groups[i].2@) == b.subrange(spans[i].0, spans[i].1)
        }
}

proof fn lemma_groups_concat(
    b: Seq<u8>,
    g1: Seq<(usize, usize, String)>,
    s1: Seq<(int, int)>,
    g2: Seq<(usize, usize, String)>,
    s2: Seq<(int, int)>,
)
    requires
        groups_are(b, g1, s1),
        groups_are(b, g2, s2),
    ensures
        groups_are(b, g1 + g2, s1 + s2),
{
    assert forall|i: int| 0 <= i < (g1 + g2).len() implies {
        &&& (#[trigger] (g1 + g2)[i]).0 == (s1 + s2)[i].0
        &&& (g1 + g2)[i].1 == (s1 + s2)[i].1
        &&& (s1 + s2)[i].0 <= (s1 + s2)[i].1 <= b.len()
        &&& utf8((g1 + g2)[i].2@) == b.subrange((s1 + s2)[i].0, (s1 + s2)[i].1)
    } by {
        if i >= g1.len() {
            assert((g1 + g2)[i] == g2[i - g1.len()]);
        }
    }
}

fn bytes_match_at(b: &[u8], opener: &Vec<u8>, k: usize) -> (r: bool)
    requires
        k + opener@.len() <= b@.len(),
    ensures
        r == (b@.subrange(k as int, k + opener@.len()) == opener@),
{
    let total = b.len();
    let mut j: usize = 0;
    while j < opener.len()
        invariant
            total == b@.len(),
            j <= opener@.len(),
            k + opener@.len() <= b@.len(),
            forall|m: int| 0 <= m < j ==> b@[k + m] == opener@[m],
        decreases opener@.len() - j,
    {
        if b[k + j] != opener[j] {
            assert(b@.subrange(k as int, k + opener@.len())[j as int] != opener@[j as int]);
            return false;
        }
        j = j + 1;
    }
    assert(b@.subrange(k as int, k + opener@.len()) =~= opener@);
    true
}

fn calls_opened_by(doc: &str, opener: &Vec<u8>) -> (r: Vec<(usize, usize, String)>)
    requires
        opener@.len() > 0,
        opener@.last() == OPEN_PAREN,
    ensures
        groups_are(doc.spec_bytes(), r@, call_spans(doc.spec_bytes(), opener@, 0)),
{
    let b = doc.as_bytes();
    let n = opener.len();
    let mut r: Vec<(usize, usize, String)> = Vec::new();
    let ghost mut done: Seq<(int, int)> = seq![];
    let mut k: usize = 0;
    while n <= b.len() - k
        invariant
            b@ == doc.spec_bytes(),
            n == opener@.len(),
            n > 0,
            opener@.last() == OPEN_PAREN,
            k <= b@.len(),
            groups_are(b@, r@, done),
            call_spans(b@, opener@, 0) == done + call_spans(b@, opener@, k as int),
        decreases b@.len() - k,
    {
        if bytes_match_at(b, opener, k) {
            let s = k + n;
            let e = match_close(b, s, OPEN_PAREN, CLOSE_PAREN);
            proof {
                assert(b@[s - 1] == b@.subrange(k as int, s as int)[n - 1]);
                lemma_ascii_boundaries(b@, s - 1);
                lemma_close_from_bounds(b@, s as int, s as int, OPEN_PAREN, CLOSE_PAREN);
                if e < b@.len() {
                    lemma_ascii_boundaries(b@, e as int);
                } else {
                    assert(is_char_boundary(b@, b@.len() as int));
                }
            }
            let text = String::from_str(byte_slice(doc, s, e));
            let ghost prev = r@;
            r.push((s, e, text));
            proof {
                let one: Seq<(int, int)> = seq![(s as int, e as int)];
                assert(groups_are(b@, seq![(s, e, text)], one));
                lemma_groups_concat(b@, prev, done, seq![(s, e, text)], one);
                assert(prev + seq![(s, e, text)] =~= r@);
                assert(call_spans(b@, opener@, k as int) == one + call_spans(b@, opener@, s as int));
                assert(done + (one + call_spans(b@, opener@, s as int)) =~= (done + one)
                    + call_spans(b@, opener@, s as int));
                done = done + one;
            }
            k = s;
        } else {
            k = k + 1;
        }
    }
    assert(call_spans(b@, opener@, k as int) =~= seq![]);
    assert(done + seq![] =~= done);
    r
}

fn factory_opener(binding: &str) -> (r: Vec<u8>)
    ensures
        r@ == factory_call_open(binding@),
{
    let mut r = binding.as_bytes_vec();
    let mut tail = CREATE_ELEMENT.as_bytes_vec();
    r.append(&mut tail);
    r.push(OPEN_PAREN);
    r
}

fn alias_opener(alias: &str) -> (r: Vec<u8>)
    ensures
        r@ == alias_call_open(alias@),
{
    let mut r = alias.as_bytes_vec();
    r.push(OPEN_PAREN);
    r
}

/// The direct factory calls `<var_name>.createElement(...)` in the document,
/// in order: each call's argument span (start, end) and its text.
pub fn extract_create_element_groups(doc: &str, var_name: &str) -> (r: Vec<(usize, usize, String)>)
    ensures
        groups_are(doc.spec_bytes(), r@, call_spans(doc.spec_bytes(), factory_call_open(var_name@), 0)),
{
    let opener = factory_opener(var_name);
    calls_opened_by(doc, &opener)
}

/// All factory calls of the document that the cursor may sit in: the direct
/// calls through `react_var_name`, then, alias by alias, the calls through
/// each alias of it assigned before the cursor.
pub fn extract_all_create_element_groups(
    doc: &str,
    react_var_name: &str,
    cursor_byte_offset: usize,
) -> (r: Vec<(usize, usize, String)>)
    requires
        cursor_byte_offset < doc.spec_bytes().len() ==> is_char_boundary(
            doc.spec_bytes(),
            cursor_byte_offset as int,
        ),
    ensures
        groups_are(
            doc.spec_bytes(),
            r@,
            call_spans(doc.spec_bytes(), factory_call_open(react_var_name@), 0) + alias_spans(
                doc.spec_bytes(),
                alias_names_before(doc@, react_var_name@, cursor_byte_offset as int),
            ),
        ),
{
    let mut all = extract_create_element_groups(doc, react_var_name);
    let ghost direct = call_spans(doc.spec_bytes(), factory_call_open(react_var_name@), 0);
    let macros = get_create_element_macros(doc, cursor_byte_offset, react_var_name);
    let ghost names = string_views(macros@);
    let ghost mut spans: Seq<(int, int)> = seq![];
    let mut i: usize = 0;
    while i < macros.len()
        invariant
            i <= macros@.len(),
            names == string_views(macros@),
            spans == alias_spans(doc.spec_bytes(), names.take(i as int)),
            groups_are(doc.spec_bytes(), all@, direct + spans),
        decreases macros@.len() - i,
    {
        let opener = alias_opener(macros[i].as_str());
        let mut more = calls_opened_by(doc, &opener);
        proof {
            let more_spans = call_spans(doc.spec_bytes(), opener@, 0);
            lemma_groups_concat(doc.spec_bytes(), all@, direct + spans, more@, more_spans);
            assert(names.take(i + 1).drop_last() =~= names.take(i as int));
            assert(names.take(i + 1).last() == macros@[i as int]@);
            assert((direct + spans) + more_spans =~= direct + (spans + more_spans));
            spans = spans + more_spans;
        }
        all.append(&mut more);
        i = i + 1;
    }
    assert(names.take(macros@.len() as int) =~= names);
    all
}

/// The aliases of `binding.createElement` assigned before byte offset `cut`.
pub open spec fn alias_names_before(doc: Seq<char>, binding: Seq<char>, cut: int) -> Seq<Seq<char>> {
    crate::locate::alias_names(
        text_before(doc, cut),
        regex_all_captures(crate::locate::ALIAS_ASSIGNMENT@, text_before(doc, cut)),
        binding,
    )
}

} // verus!
