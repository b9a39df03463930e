use rblx_react_lsp::{
    classify_call, classify_group, completion_context, extract_all_create_element_groups,
    extract_create_element_groups, find_mattching_paren, get_completion_items,
    get_create_element_macros, position_to_byte_offset, ContextKind,
    InvalidPosition, Position,
};
use rblx_react_lsp::{binding_name, select_aliases};

/// Splits a text at its `|` marker: the text without it, and the marker's position.
fn marked(text: &str) -> (String, Position) {
    let at = text.find('|').unwrap();
    let before = &text[..at];
    let line = before.matches('\n').count() as u32;
    let line_start = before.rfind('\n').map(|i| i + 1).unwrap_or(0);
    let character = before[line_start..].encode_utf16().count() as u32;
    let mut doc = before.to_string();
    doc.push_str(&text[at + 1..]);
    (doc, Position { line, character })
}

#[test]
fn property_context_scenario() {
    let (doc, pos) = marked("local React = require(S.React)\nReact.createElement(\"Frame\", {|})");
    assert_eq!(pos, Position { line: 1, character: 30 });
    assert_eq!(
        completion_context(&doc, &pos),
        Ok(ContextKind::PropertyAssignment("Frame".to_string()))
    );
}

#[test]
fn instance_name_context_scenario() {
    let doc = "React.createElement(\"Frame\", {})";
    let groups = extract_create_element_groups(doc, "React");
    assert_eq!(groups, vec![(20, 31, "\"Frame\", {}".to_string())]);
    let cursor = doc.find("me\"").unwrap();
    assert_eq!(
        classify_call(doc, cursor, 20, &groups[0].2),
        Some(ContextKind::InstanceNameLiteral("Fra".to_string()))
    );
}

#[test]
fn instance_name_context_in_document() {
    let (doc, pos) = marked("local React = require(S.React)\nReact.createElement(\"Fra|me\", {})");
    assert_eq!(
        completion_context(&doc, &pos),
        Ok(ContextKind::InstanceNameLiteral("Fra".to_string()))
    );
}

#[test]
fn alias_scenario() {
    let (doc, pos) = marked("local e = React.createElement\ne(\"But|ton\", {})");
    let cursor = position_to_byte_offset(&doc, &pos).unwrap();
    assert_eq!(get_create_element_macros(&doc, cursor, "React"), vec!["e".to_string()]);
    let groups = extract_all_create_element_groups(&doc, "React", cursor);
    assert_eq!(groups.len(), 1);
    assert_eq!(groups[0].2, "\"Button\", {}");
    assert_eq!(
        classify_call(&doc, cursor, groups[0].0, &groups[0].2),
        Some(ContextKind::InstanceNameLiteral("But".to_string()))
    );
}

#[test]
fn alias_scenario_in_document() {
    let (doc, pos) =
        marked("local React = require(game.React)\nlocal e = React.createElement\ne(\"But|ton\", {})");
    assert_eq!(
        completion_context(&doc, &pos),
        Ok(ContextKind::InstanceNameLiteral("But".to_string()))
    );
}

#[test]
fn alias_after_cursor_is_ignored() {
    let (doc, pos) =
        marked("local React = require(game.React)\ne(\"But|ton\", {})\nlocal e = React.createElement");
    assert_eq!(completion_context(&doc, &pos), Ok(ContextKind::NoContext));
}

#[test]
fn value_context_suppressed_scenario() {
    let (doc, pos) = marked(
        "local React = require(S.React)\nReact.createElement(\"Frame\", {Visible = tru|e})",
    );
    assert_eq!(completion_context(&doc, &pos), Ok(ContextKind::NoContext));
    let call = "React.createElement(\"Frame\", {Visible = true})";
    let cursor = call.find("e})").unwrap();
    let groups = extract_create_element_groups(call, "React");
    assert_eq!(classify_call(call, cursor, groups[0].0, &groups[0].2), Some(ContextKind::NoContext));
}

#[test]
fn unterminated_call_scenario() {
    let (doc, pos) = marked("local React = require(S.React)\nReact.createElement(\"Frame\", {Te|");
    let groups = extract_create_element_groups(&doc, "React");
    assert_eq!(groups.len(), 1);
    assert_eq!(groups[0].1, doc.len());
    assert_eq!(groups[0].2, "\"Frame\", {Te");
    assert_eq!(
        completion_context(&doc, &pos),
        Ok(ContextKind::PropertyAssignment("Frame".to_string()))
    );
}

#[test]
fn event_key_context() {
    let (doc, pos) = marked(
        "local React = require(S.React)\nReact.createElement(\"TextButton\", {[React.Event.Act|] = f})",
    );
    assert_eq!(
        completion_context(&doc, &pos),
        Ok(ContextKind::EventKeyLookup("TextButton".to_string()))
    );
}

#[test]
fn context_without_instance_name() {
    let (doc, pos) = marked("local React = require(S.React)\nReact.createElement(Frame, {|})");
    assert_eq!(completion_context(&doc, &pos), Ok(ContextKind::NoContext));
}

#[test]
fn document_without_factory_has_no_context() {
    let doc = "local x = 1";
    assert_eq!(
        completion_context(doc, &Position { line: 0, character: 3 }),
        Ok(ContextKind::NoContext)
    );
    let unbound = "require(S.React)\nReact.createElement(\"Frame\", {})";
    assert_eq!(
        completion_context(unbound, &Position { line: 1, character: 30 }),
        Ok(ContextKind::NoContext)
    );
}

#[test]
fn line_past_end_fails_without_factory() {
    let api = rblx_react_lsp::ApiManager::new();
    assert_eq!(
        get_completion_items("local x = 1", &Position { line: 9, character: 0 }, &api),
        Err(InvalidPosition)
    );
    assert_eq!(
        completion_context("require(S.React)\n", &Position { line: 1, character: 0 }),
        Err(InvalidPosition)
    );
    assert_eq!(completion_context("", &Position { line: 0, character: 0 }), Err(InvalidPosition));
}

#[test]
fn binding_name_reads_group_one() {
    let doc = "local Test = require(A.React)";
    assert_eq!(
        binding_name(doc, &Some(vec![Some((0, 29)), Some((6, 10))])),
        Some("Test".to_string())
    );
    assert_eq!(binding_name(doc, &Some(vec![Some((0, 29)), None])), None);
    assert_eq!(binding_name(doc, &Some(vec![Some((0, 29))])), None);
    assert_eq!(binding_name(doc, &None), None);
}

#[test]
fn classify_group_uses_given_literal_match() {
    let doc = "React.createElement(\"Frame\", {})";
    let group = "\"Frame\", {}";
    let quotes = Some(vec![Some((0, 7)), Some((1, 6)), None, None, None]);
    assert_eq!(
        classify_group(doc, 23, 20, group, &quotes),
        Some(ContextKind::InstanceNameLiteral("Fr".to_string()))
    );
    assert_eq!(classify_group(doc, 23, 20, group, &None), None);
    assert_eq!(
        classify_group(doc, 30, 20, group, &None),
        Some(ContextKind::PropertyAssignment("Frame".to_string()))
    );
}

#[test]
fn position_maps_lines_and_utf16_columns() {
    let doc = "ab\ncd";
    assert_eq!(position_to_byte_offset(doc, &Position { line: 1, character: 1 }), Some(4));
    assert_eq!(position_to_byte_offset(doc, &Position { line: 0, character: 10 }), Some(3));
    assert_eq!(position_to_byte_offset(doc, &Position { line: 2, character: 0 }), None);
    assert_eq!(position_to_byte_offset("", &Position { line: 0, character: 0 }), None);
    let wide = "\u{e9}\u{1F600}x\n";
    assert_eq!(position_to_byte_offset(wide, &Position { line: 0, character: 1 }), Some(2));
    assert_eq!(position_to_byte_offset(wide, &Position { line: 0, character: 2 }), Some(6));
    assert_eq!(position_to_byte_offset(wide, &Position { line: 0, character: 4 }), Some(7));
    assert_eq!(position_to_byte_offset(wide, &Position { line: 1, character: 0 }), None);
}

#[test]
fn position_stays_within_text() {
    let doc = "first\nsecond line\nthird";
    for line in 0..3u32 {
        for character in 0..20u32 {
            let o = position_to_byte_offset(doc, &Position { line, character }).unwrap();
            assert!(o <= doc.len());
        }
    }
    assert_eq!(position_to_byte_offset(doc, &Position { line: 3, character: 0 }), None);
}

#[test]
fn rematching_inside_a_span_stays_inside() {
    let text = "(a (b) c) tail";
    let end = find_mattching_paren(text, 1);
    assert_eq!(end, 8);
    let inner = &text[1..end];
    assert_eq!(find_mattching_paren(inner, 0), inner.len());
}

#[test]
fn invalid_position_is_an_error() {
    let api = rblx_react_lsp::ApiManager::new();
    let doc = "local React = require(S.React)\nReact.createElement(\"Frame\", {})";
    assert_eq!(
        get_completion_items(doc, &Position { line: 5, character: 0 }, &api),
        Err(InvalidPosition)
    );
    assert_eq!(
        get_completion_items(doc, &Position { line: 1, character: 30 }, &api),
        Ok(vec![])
    );
}

#[test]
fn aliases_are_selected_by_base_name() {
    let text = "local e = React.createElement\ncreate = Other.createElement";
    let caps = vec![
        vec![Some((0, 29)), Some((6, 7)), Some((10, 15))],
        vec![Some((30, 58)), Some((30, 36)), Some((39, 44))],
    ];
    assert_eq!(select_aliases(text, &caps, "React"), vec!["e".to_string()]);
    assert_eq!(select_aliases(text, &caps, "Other"), vec!["create".to_string()]);
    assert_eq!(select_aliases(text, &caps, "Nobody"), Vec::<String>::new());
    let partial = vec![vec![Some((0, 29)), Some((6, 7))]];
    assert_eq!(select_aliases(text, &partial, "React"), Vec::<String>::new());
}
