//! Classifying the slot of a factory call that the cursor occupies.

use vstd::prelude::*;
use vstd::slice::slice_subrange;
use vstd::string::*;
use vstd::utf8::*;

use crate::calls::{
    alias_names_before, alias_spans, call_spans, extract_all_create_element_groups,
    factory_call_open, groups_are,
};
use crate::delimiters::{assigned_before, closing_offset, context_is_assignment, lemma_close_from_bounds, match_close};
use crate::locate::{first_group_text, get_react_var_name, has_react, span_text, REACT_BINDING, REACT_REQUIRE};
use crate::names::{extract_name_from_span, find_byte, first_from, span_instance_name};
use crate::patterns::{first_captures, regex_first_captures, regex_found};
use crate::position::{position_offset, position_to_byte_offset, Position};
use crate::text::{utf8, CLOSE_BRACE, CLOSE_BRACKET, OPEN_BRACE, OPEN_BRACKET};

verus! {

broadcast use {
    vstd::utf8::encode_utf8_valid_utf8,
    vstd::utf8::encode_utf8_decode_utf8,
};

/// A string literal in any of its forms; the group that took part holds its contents.
pub const QUOTED_LITERAL: &'static str = r#"(?s)(?:"([^"]*?)"|'([^']*?)'|`([^`]*?)`|\[\[([^\]]*?)\]\])"#;

/// The slot of a factory call that the cursor occupies.
#[derive(Clone, Debug, PartialEq, Eq)]
pub enum ContextKind {
    /// Not a completion point.
    NoContext,
    /// Inside a string literal among the arguments; holds the literal's contents.
    InstanceNameLiteral(String),
    /// At a key of the properties table of a call naming this instance.
    PropertyAssignment(String),
    /// Inside a computed `[...]` key of the properties table of a call naming this instance.
    EventKeyLookup(String),
}

/// The mathematical form of a [`ContextKind`].
pub enum ContextModel {
    Nothing,
    InstanceName(Seq<char>),
    Property(Seq<char>),
    Event(Seq<char>),
}

impl View for ContextKind {
    type V = ContextModel;

    open spec fn view(&self) -> ContextModel {
        match self {
            ContextKind::NoContext => ContextModel::Nothing,
            ContextKind::InstanceNameLiteral(s) => ContextModel::InstanceName(s@),
            ContextKind::PropertyAssignment(s) => ContextModel::Property(s@),
            ContextKind::EventKeyLookup(s) => ContextModel::Event(s@),
        }
    }
}

/// Failure of a query whose cursor line lies past the document's last line.
#[derive(Clone, Copy, Debug, PartialEq, Eq)]
pub struct InvalidPosition;

/// The instance name that a call's argument text names, as characters.
pub open spec fn call_instance_name(g: Seq<char>) -> Option<Seq<char>> {
    match span_instance_name(g) {
        Some(n) => Some(decode_utf8(n)),
        None => None,
    }
}

/// The text typed so far in the first capture group, from group `i` on,
/// whose span holds offset `local`: from the group's start up to `local`.
pub open spec fn quoted_group_at(
    text: Seq<char>,
    gs: Seq<Option<(usize, usize)>>,
    i: int,
    local: int,
) -> Option<Seq<char>>
    decreases gs.len() - i,
{
    if i < 0 || i >= gs.len() {
        None
    } else {
        match gs[i] {
            Some(p) => if p.0 <= local <= p.1 && span_text(utf8(text), Some((p.0, local as usize)))
                is Some {
                span_text(utf8(text), Some((p.0, local as usize)))
            } else {
                quoted_group_at(text, gs, i + 1, local)
            },
            None => quoted_group_at(text, gs, i + 1, local),
        }
    }
}

/// What the call whose arguments `g` start at byte `start` of `doc` says of
/// a cursor at byte `cursor`, given the first string-literal match `quotes`
/// over `g`: `None` when the call leaves the cursor to the next call.
///
/// Inside the first `{...}` table: a cursor inside its first `[...]` region
/// is at an event key; otherwise one after `=` (see [`assigned_before`]) is
/// at a value and gets nothing; otherwise it is at a property key. Both keys
/// need the call's instance name. Outside the table, a cursor within the
/// contents of the first string literal is at an instance name, queried by
/// the literal's text before the cursor.
pub open spec fn group_context(
    doc: Seq<u8>,
    cursor: int,
    start: int,
    g: Seq<char>,
    quotes: Option<Seq<Option<(usize, usize)>>>,
) -> Option<ContextModel> {
    let gb = utf8(g);
    let local = cursor - start;
    let bs = first_from(gb, OPEN_BRACE, 0);
    let be = closing_offset(gb, bs + 1, OPEN_BRACE, CLOSE_BRACE);
    let name = call_instance_name(g);
    if bs < gb.len() && bs <= local <= be {
        let content = gb.subrange(bs + 1, be);
        let cib = if local > bs + 1 {
            local - (bs + 1)
        } else {
            0
        };
        let ks = first_from(content, OPEN_BRACKET, 0);
        let ke = closing_offset(content, ks + 1, OPEN_BRACKET, CLOSE_BRACKET);
        if ks < content.len() && ks <= cib <= ke && name is Some {
            Some(ContextModel::Event(name->0))
        } else if !assigned_before(doc, cursor) && name is Some {
            Some(ContextModel::Property(name->0))
        } else {
            Some(ContextModel::Nothing)
        }
    } else {
        match quotes {
            Some(gs) => match quoted_group_at(g, gs, 1, local) {
                Some(q) => Some(ContextModel::InstanceName(q)),
                None => None,
            },
            None => None,
        }
    }
}

/// The context of a cursor at byte `cursor` of `doc`, given the argument
/// spans of the factory calls from the `i`-th on: the verdict of the first
/// call whose span holds the cursor and that decides.
pub open spec fn context_in(doc: Seq<u8>, cursor: int, spans: Seq<(int, int)>, i: int) -> ContextModel
    decreases spans.len() - i,
{
    if i < 0 || i >= spans.len() {
        ContextModel::Nothing
    } else {
        let s = spans[i].0;
        let e = spans[i].1;
        let g = decode_utf8(doc.subrange(s, e));
        if s <= cursor <= e {
            match group_context(doc, cursor, s, g, regex_first_captures(QUOTED_LITERAL@, g)) {
                Some(k) => k,
                None => context_in(doc, cursor, spans, i + 1),
            }
        } else {
            context_in(doc, cursor, spans, i + 1)
        }
    }
}

/// The context of the cursor at `line`, `col` of `doc`; `None` when the
/// position's line does not exist in the document.
pub open spec fn query_context(doc: Seq<char>, line: nat, col: nat) -> Option<ContextModel> {
    match position_offset(utf8(doc), line, col) {
        None => None,
        Some(c) => if !regex_found(REACT_REQUIRE@, doc) {
            Some(ContextModel::Nothing)
        } else {
            match first_group_text(REACT_BINDING@, doc, 1) {
                None => Some(ContextModel::Nothing),
                Some(binding) => Some(
                    context_in(
                        utf8(doc),
                        c,
                        call_spans(utf8(doc), factory_call_open(binding), 0) + alias_spans(
                            utf8(doc),
                            alias_names_before(doc, binding, c),
                        ),
                        0,
                    ),
                ),
            }
        },
    }
}

/// The spans of a list of call groups.
pub open spec fn group_spans(groups: Seq<(usize, usize, String)>) -> Seq<(int, int)> {
    groups.map_values(|g: (usize, usize, String)| (g.0 as int, g.1 as int))
}

/// The view of an optional capture list.
pub open spec fn captures_view(q: Option<Vec<Option<(usize, usize)>>>) -> Option<Seq<Option<(usize, usize)>>> {
    match q {
        Some(v) => Some(v@),
        None => None,
    }
}

/// The view of an optional context.
pub open spec fn verdict_view(r: Option<ContextKind>) -> Option<ContextModel> {
    match r {
        Some(k) => Some(k@),
        None => None,
    }
}

fn quoted_group(text: &str, gs: &Vec<Option<(usize, usize)>>, local: usize) -> (r: Option<String>)
    ensures
        match r {
            Some(q) => quoted_group_at(text@, gs@, 1, local as int) == Some(q@),
            None => quoted_group_at(text@, gs@, 1, local as int) is None,
        },
{
    let b = text.as_bytes();
    let mut i: usize = 1;
    if gs.len() < 1 {
        return None;
    }
    while i < gs.len()
        invariant
            b@ == text.spec_bytes(),
            1 <= i <= gs@.len(),
            quoted_group_at(text@, gs@, 1, local as int) == quoted_group_at(
                text@,
                gs@,
                i as int,
                local as int,
            ),
        decreases gs@.len() - i,
    {
        if let Some(p) = gs[i] {
            let (s, e) = p;
            if s <= local && local <= e && local <= b.len() && text.is_char_boundary(s)
                && text.is_char_boundary(local) {
                return Some(String::from_str(crate::text::byte_slice(text, s, local)));
            }
        }
        i = i + 1;
    }
    None
}

/// What the call whose argument text `group` starts at byte `start` of `doc`
/// says of a cursor at byte `cursor`, given `quotes`, the first match of
/// [`QUOTED_LITERAL`] over `group`; `None` leaves the cursor to the next call.
pub fn classify_group(
    doc: &str,
    cursor: usize,
    start: usize,
    group: &str,
    quotes: &Option<Vec<Option<(usize, usize)>>>,
) -> (r: Option<ContextKind>)
    requires
        start <= cursor,
    ensures
        verdict_view(r) == group_context(
            doc.spec_bytes(),
            cursor as int,
            start as int,
            group@,
            captures_view(*quotes),
        ),
{
    let gb = group.as_bytes();
    let glen = gb.len();
    let local = cursor - start;
    let bs = find_byte(gb, OPEN_BRACE, 0);
    if bs < glen {
        let be = match_close(gb, bs + 1, OPEN_BRACE, CLOSE_BRACE);
        if bs <= local && local <= be {
            proof {
                lemma_close_from_bounds(gb@, bs + 1, bs + 1, OPEN_BRACE, CLOSE_BRACE);
            }
            let name = extract_name_from_span(group);
            let content = slice_subrange(gb, bs + 1, be);
            let cib = if local > bs + 1 {
                local - (bs + 1)
            } else {
                0
            };
            let ks = find_byte(content, OPEN_BRACKET, 0);
            if ks < content.len() {
                let ke = match_close(content, ks + 1, OPEN_BRACKET, CLOSE_BRACKET);
                if ks <= cib && cib <= ke {
                    if let Some(n) = name {
                        return Some(ContextKind::EventKeyLookup(n));
                    }
                    return Some(ContextKind::NoContext);
                }
            }
            if !context_is_assignment(doc, cursor) {
                if let Some(n) = name {
                    return Some(ContextKind::PropertyAssignment(n));
                }
            }
            return Some(ContextKind::NoContext);
        }
    }
    match quotes {
        Some(gs) => match quoted_group(group, gs, local) {
            Some(q) => Some(ContextKind::InstanceNameLiteral(q)),
            None => None,
        },
        None => None,
    }
}

/// What the call whose argument text `group` starts at byte `start` says of
/// a cursor at byte `cursor` (see [`classify_group`]).
pub fn classify_call(doc: &str, cursor: usize, start: usize, group: &str) -> (r: Option<ContextKind>)
    requires
        start <= cursor,
    ensures
        verdict_view(r) == group_context(
            doc.spec_bytes(),
            cursor as int,
            start as int,
            group@,
            regex_first_captures(QUOTED_LITERAL@, group@),
        ),
{
    let quotes = first_captures(QUOTED_LITERAL, group);
    classify_group(doc, cursor, start, group, &quotes)
}

/// The context of a cursor at byte `cursor` of `doc` among the factory calls
/// `groups`: the verdict of the first call whose span holds the cursor and
/// that decides; [`ContextKind::NoContext`] when none does.
pub fn classify_cursor(doc: &str, cursor: usize, groups: &Vec<(usize, usize, String)>) -> (r: ContextKind)
    requires
        groups_are(doc.spec_bytes(), groups@, group_spans(groups@)),
    ensures
        r@ == context_in(doc.spec_bytes(), cursor as int, group_spans(groups@), 0),
{
    let mut i: usize = 0;
    while i < groups.len()
        invariant
            i <= groups@.len(),
            groups_are(doc.spec_bytes(), groups@, group_spans(groups@)),
            context_in(doc.spec_bytes(), cursor as int, group_spans(groups@), 0) == context_in(
                doc.spec_bytes(),
                cursor as int,
                group_spans(groups@),
                i as int,
            ),
        decreases groups@.len() - i,
    {
        let (start, end, text) = (groups[i].0, groups[i].1, &groups[i].2);
        proof {
            assert(groups_are(doc.spec_bytes(), groups@, group_spans(groups@)));
            assert(utf8(text@) == doc.spec_bytes().subrange(start as int, end as int));
            assert(text@ == decode_utf8(utf8(text@)));
        }
        if start <= cursor && cursor <= end {
            if let Some(k) = classify_call(doc, cursor, start, text.as_str()) {
                return k;
            }
        }
        i = i + 1;
    }
    ContextKind::NoContext
}

/// The context of the cursor at `cursor` in `doc`: maps the cursor to a
/// byte offset (failing with [`InvalidPosition`] when its line does not
/// exist), locates the factory binding, the calls through it and through its
/// aliases assigned before the cursor, and classifies the cursor among them.
pub fn completion_context(doc: &str, cursor: &Position) -> (r: Result<ContextKind, InvalidPosition>)
    ensures
        match r {
            Ok(k) => query_context(doc@, cursor.line as nat, cursor.character as nat) == Some(k@),
            Err(_) => query_context(doc@, cursor.line as nat, cursor.character as nat) is None,
        },
{
    let offset = match position_to_byte_offset(doc, cursor) {
        Some(o) => o,
        None => return Err(InvalidPosition),
    };
    if !has_react(doc) {
        return Ok(ContextKind::NoContext);
    }
    let binding = match get_react_var_name(doc) {
        Some(n) => n,
        None => return Ok(ContextKind::NoContext),
    };
    let groups = extract_all_create_element_groups(doc, binding.as_str(), offset);
    let ghost spans = call_spans(doc.spec_bytes(), factory_call_open(binding@), 0) + alias_spans(
        doc.spec_bytes(),
        alias_names_before(doc@, binding@, offset as int),
    );
    assert(group_spans(groups@) =~= spans);
    Ok(classify_cursor(doc, offset, &groups))
}

} // verus!
