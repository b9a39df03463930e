//! Finding the factory binding, its aliases, and the argument spans of the
//! factory calls in a document; reading the instance name a call names.

use vstd::prelude::*;
use vstd::string::*;
use vstd::utf8::*;

use crate::patterns::{
    all_captures, first_captures, regex_all_captures, regex_first_captures, regex_found, search,
};
use crate::text::{byte_slice, utf8};

verus! {

broadcast use {
    vstd::utf8::encode_utf8_valid_utf8,
    vstd::utf8::encode_utf8_decode_utf8,
    vstd::utf8::is_char_boundary_start_end_of_seq,
};

/// A `require(...)` of a module path that ends in `.React`.
pub const REACT_REQUIRE: &'static str = r"require\s*\(\s*[^)]*\.React\s*\)";

/// A (possibly `local`) assignment of such a `require` to a name, captured as group one.
pub const REACT_BINDING: &'static str = r"(?i)\b(?:local\s+)?(\w+)\s*=\s*require\s*\(.*\.React\s*\)";

/// A (possibly `local`) assignment `<alias> = <base>.createElement`, capturing both names.
pub const ALIAS_ASSIGNMENT: &'static str = r"(?i)\b(?:local\s+)?(\w+)\s*=\s*(\w+)\.createElement\b";

/// The member that a factory call goes through.
pub const CREATE_ELEMENT: &'static str = ".createElement";

/// Whether `[s, e)` is a slice of `b` that starts and ends on character boundaries.
pub open spec fn span_ok(b: Seq<u8>, s: int, e: int) -> bool {
    0 <= s <= e <= b.len() && is_char_boundary(b, s) && is_char_boundary(b, e)
}

/// The text of a capture-group span of `b`, when the group took part and its span is a slice.
pub open spec fn span_text(b: Seq<u8>, g: Option<(usize, usize)>) -> Option<Seq<char>> {
    match g {
        Some(p) => if span_ok(b, p.0 as int, p.1 as int) {
            Some(decode_utf8(b.subrange(p.0 as int, p.1 as int)))
        } else {
            None
        },
        None => None,
    }
}

/// The text of group `g` of a match whose group spans are `caps`.
pub open spec fn capture_group_text(
    text: Seq<char>,
    caps: Option<Seq<Option<(usize, usize)>>>,
    g: int,
) -> Option<Seq<char>> {
    match caps {
        Some(gs) => if 0 <= g < gs.len() {
            span_text(utf8(text), gs[g])
        } else {
            None
        },
        None => None,
    }
}

/// The text of group `g` of the first match of `pattern` in `text`.
pub open spec fn first_group_text(pattern: Seq<char>, text: Seq<char>, g: int) -> Option<Seq<char>> {
    capture_group_text(text, regex_first_captures(pattern, text), g)
}

/// The views of a sequence of strings.
pub open spec fn string_views(v: Seq<String>) -> Seq<Seq<char>> {
    v.map_values(|s: String| s@)
}

/// The views of a sequence of capture lists.
pub open spec fn capture_views(v: Seq<Vec<Option<(usize, usize)>>>) -> Seq<
    Seq<Option<(usize, usize)>>,
> {
    v.map_values(|c: Vec<Option<(usize, usize)>>| c@)
}

/// The aliases, in match order, of the alias assignments whose base is `base`.
pub open spec fn alias_names(
    text: Seq<char>,
    caps: Seq<Seq<Option<(usize, usize)>>>,
    base: Seq<char>,
) -> Seq<Seq<char>>
    decreases caps.len(),
{
    if caps.len() == 0 {
        seq![]
    } else {
        let rest = alias_names(text, caps.drop_last(), base);
        let c = caps.last();
        if c.len() > 2 && span_text(utf8(text), c[1]) is Some && span_text(utf8(text), c[2])
            == Some(base) {
            rest.push(span_text(utf8(text), c[1])->0)
        } else {
            rest
        }
    }
}

/// The text before byte offset `cut`, or the whole text when `cut` lies past its end.
pub open spec fn text_before(text: Seq<char>, cut: int) -> Seq<char> {
    decode_utf8(utf8(text).subrange(0, if cut < utf8(text).len() { cut } else { utf8(text).len() as int }))
}

fn group_string(text: &str, g: Option<(usize, usize)>) -> (r: Option<String>)
    ensures
        match r {
            Some(t) => span_text(text.spec_bytes(), g) == Some(t@),
            None => span_text(text.spec_bytes(), g) is None,
        },
{
    match g {
        Some(p) => {
            let (s, e) = p;
            if s <= e && e <= text.as_bytes().len() && text.is_char_boundary(s) && text.is_char_boundary(e) {
                Some(String::from_str(byte_slice(text, s, e)))
            } else {
                None
            }
        },
        None => None,
    }
}

/// Whether the document requires the React module.
pub fn has_react(doc: &str) -> (r: bool)
    ensures
        r == regex_found(REACT_REQUIRE@, doc@),
{
    search(REACT_REQUIRE, doc)
}

/// The text of capture group one of a match of [`REACT_BINDING`] over
/// `doc`, given the match's group spans `caps`: the bound name.
pub fn binding_name(doc: &str, caps: &Option<Vec<Option<(usize, usize)>>>) -> (r: Option<String>)
    ensures
        match r {
            Some(n) => capture_group_text(
                doc@,
                match caps {
                    Some(v) => Some(v@),
                    None => None,
                },
                1,
            ) == Some(n@),
            None => capture_group_text(
                doc@,
                match caps {
                    Some(v) => Some(v@),
                    None => None,
                },
                1,
            ) is None,
        },
{
    match caps {
        Some(gs) => if 1 < gs.len() {
            group_string(doc, gs[1])
        } else {
            None
        },
        None => None,
    }
}

/// The name the document binds the React module to: the first such binding.
pub fn get_react_var_name(doc: &str) -> (r: Option<String>)
    ensures
        match r {
            Some(n) => first_group_text(REACT_BINDING@, doc@, 1) == Some(n@),
            None => first_group_text(REACT_BINDING@, doc@, 1) is None,
        },
{
    let caps = first_captures(REACT_BINDING, doc);
    binding_name(doc, &caps)
}

/// The name the document binds the React module to (the same search as
/// [`get_react_var_name`]).
pub fn extract_react_var_name(text: &str) -> (r: Option<String>)
    ensures
        match r {
            Some(n) => first_group_text(REACT_BINDING@, text@, 1) == Some(n@),
            None => first_group_text(REACT_BINDING@, text@, 1) is None,
        },
{
    get_react_var_name(text)
}

/// From the matches of the alias-assignment search over `text`, the aliases
/// whose base name is `base`, in match order.
pub fn select_aliases(text: &str, caps: &Vec<Vec<Option<(usize, usize)>>>, base: &str) -> (r: Vec<
    String,
>)
    ensures
        string_views(r@) == alias_names(text@, capture_views(caps@), base@),
{
    let base_name = base.to_owned();
    let mut r: Vec<String> = Vec::new();
    let mut i: usize = 0;
    while i < caps.len()
        invariant
            i <= caps@.len(),
            base_name@ == base@,
            string_views(r@) == alias_names(text@, capture_views(caps@.take(i as int)), base@),
        decreases caps@.len() - i,
    {
        let c = &caps[i];
        assert(capture_views(caps@.take(i + 1)).drop_last() =~= capture_views(caps@.take(i as int)));
        assert(capture_views(caps@.take(i + 1)).last() == c@);
        if c.len() > 2 {
            let alias = group_string(text, c[1]);
            let of = group_string(text, c[2]);
            match (alias, of) {
                (Some(a), Some(o)) => {
                    if o == base_name {
                        r.push(a);
                        assert(string_views(r@) =~= alias_names(
                            text@,
                            capture_views(caps@.take(i as int)),
                            base@,
                        ).push(a@));
                    }
                },
                _ => {},
            }
        }
        i = i + 1;
    }
    assert(caps@.take(caps@.len() as int) =~= caps@);
    r
}

/// The aliases of `react_var_name.createElement` assigned in the document
/// before byte offset `before_byte_offset`, in order of appearance.
pub fn get_create_element_macros(doc: &str, before_byte_offset: usize, react_var_name: &str) -> (r:
    Vec<String>)
    requires
        before_byte_offset < doc.spec_bytes().len() ==> is_char_boundary(
            doc.spec_bytes(),
            before_byte_offset as int,
        ),
    ensures
        string_views(r@) == alias_names(
            text_before(doc@, before_byte_offset as int),
            regex_all_captures(ALIAS_ASSIGNMENT@, text_before(doc@, before_byte_offset as int)),
            react_var_name@,
        ),
{
    let len = doc.as_bytes().len();
    let cut = if before_byte_offset < len {
        before_byte_offset
    } else {
        len
    };
    assert(is_char_boundary(doc.spec_bytes(), doc.spec_bytes().len() as int));
    let region = byte_slice(doc, 0, cut);
    assert(region@ == text_before(doc@, before_byte_offset as int));
    let caps = all_captures(ALIAS_ASSIGNMENT, region);
    assert(capture_views(caps@) =~= regex_all_captures(ALIAS_ASSIGNMENT@, region@));
    select_aliases(region, &caps, react_var_name)
}

} // verus!
