use rblx_react_lsp::{
    get_completion_items, get_metadata, process_api_dump_json, ApiDump, ApiManager, CandidateKind,
    CompletionCandidate, Instance, subsequence_of, Member, ParsedInstance, ParsedProperty, Position, ValueType,
};

fn member(kind: &str, name: &str, value_name: &str, tags: &[&str]) -> Member {
    Member {
        category: "Data".to_string(),
        member_type: kind.to_string(),
        name: name.to_string(),
        tags: tags.iter().map(|t| t.to_string()).collect(),
        value_type: ValueType { category: "Primitive".to_string(), name: value_name.to_string() },
    }
}

fn class(name: &str, superclass: &str, members: Vec<Member>) -> Instance {
    Instance {
        members,
        memory_category: "Instances".to_string(),
        name: name.to_string(),
        superclass: superclass.to_string(),
        tags: vec![],
    }
}

fn entry(name: &str, properties: &[(&str, &str)]) -> ParsedInstance {
    ParsedInstance {
        instance: name.to_string(),
        superclass: "<ROOT>".to_string(),
        properties: properties
            .iter()
            .map(|(n, t)| ParsedProperty { name: n.to_string(), data_type: t.to_string() })
            .collect(),
        events: vec![ParsedProperty { name: "Activated".to_string(), data_type: String::new() }],
    }
}

fn names_of(props: &[(String, String)]) -> Vec<&str> {
    props.iter().map(|p| p.0.as_str()).collect()
}

#[test]
fn flattening_inherits_and_filters_members() {
    let dump = ApiDump {
        classes: vec![
            class(
                "Base",
                "<ROOT>",
                vec![
                    member("Property", "Name", "string", &[]),
                    member("Property", "Old", "string", &["Deprecated"]),
                    member("Event", "Changed", "", &[]),
                    member("Function", "Destroy", "null", &[]),
                ],
            ),
            class(
                "Derived",
                "Base",
                vec![
                    member("Property", "Size", "UDim2", &["ReadOnly"]),
                    member("Property", "Text", "string", &[]),
                ],
            ),
            class("Orphan", "Missing", vec![member("Property", "Alone", "bool", &[])]),
        ],
    };
    let parsed = process_api_dump_json(&dump);
    assert_eq!(parsed.len(), 3);
    let derived = &parsed[1];
    assert_eq!(derived.instance, "Derived");
    assert_eq!(derived.superclass, "Base");
    let props: Vec<&str> = derived.properties.iter().map(|p| p.name.as_str()).collect();
    assert_eq!(props, vec!["Text", "Name"]);
    assert_eq!(derived.properties[1].data_type, "string");
    let events: Vec<&str> = derived.events.iter().map(|p| p.name.as_str()).collect();
    assert_eq!(events, vec!["Changed"]);
    let orphan: Vec<&str> = parsed[2].properties.iter().map(|p| p.name.as_str()).collect();
    assert_eq!(orphan, vec!["Alone"]);
}

#[test]
fn flattening_keeps_last_class_of_a_name() {
    let dump = ApiDump {
        classes: vec![
            class("Frame", "<ROOT>", vec![member("Property", "First", "bool", &[])]),
            class("Frame", "<ROOT>", vec![member("Property", "Second", "bool", &[])]),
        ],
    };
    let parsed = process_api_dump_json(&dump);
    assert_eq!(parsed.len(), 1);
    assert_eq!(parsed[0].properties[0].name, "Second");
}

#[test]
fn flattening_survives_a_superclass_cycle() {
    let dump = ApiDump {
        classes: vec![
            class("A", "B", vec![member("Property", "X", "bool", &[])]),
            class("B", "A", vec![member("Property", "Y", "bool", &[])]),
        ],
    };
    let parsed = process_api_dump_json(&dump);
    assert_eq!(parsed.len(), 2);
    assert!(parsed[0].properties.len() >= 2);
}

fn loaded() -> ApiManager {
    let mut api = ApiManager::new();
    api.load_instances(vec![
        entry("Frame", &[("Size", "UDim2"), ("Visible", "bool")]),
        entry("TextLabel", &[("Size", "UDim2"), ("Text", "string"), ("Visible", "bool"), ("Name", "string")]),
        entry("TextButton", &[("Text", "string")]),
    ]);
    api
}

#[test]
fn schema_lookups() {
    let api = loaded();
    assert!(api.lookup_inst("Frame").is_some());
    assert!(api.lookup_inst("Nope").is_none());
    assert_eq!(api.lookup_properties("Nope"), None);
    let events = api.lookup_events("TextButton").unwrap();
    assert_eq!(names_of(&events), vec!["Activated"]);
    assert_eq!(ApiManager::new().lookup_properties("Frame"), None);
    assert_eq!(ApiManager::new().get_all_inst(""), None);
}

#[test]
fn ranking_follows_frequency_then_length_then_name() {
    let mut api = loaded();
    let unranked = api.lookup_properties("TextLabel").unwrap();
    assert_eq!(names_of(&unranked), vec!["Visible", "Name", "Size", "Text"]);
    api.update_freq("Text Text Visible", 1);
    let ranked = api.lookup_properties("TextLabel").unwrap();
    assert_eq!(names_of(&ranked), vec!["Text", "Visible", "Name", "Size"]);
    assert_eq!(ranked[0].1, "string");
    assert_eq!(api.lookup_properties("TextLabel").unwrap(), ranked);
}

#[test]
fn frequency_counts_tracked_words_only() {
    let mut api = loaded();
    api.update_freq("Frame1Frame \u{e9}Frame Size size Untracked", 3);
    assert_eq!(api.term_frequency("Frame"), 6);
    assert_eq!(api.term_frequency("Size"), 3);
    assert_eq!(api.term_frequency("Untracked"), 0);
    assert_eq!(api.term_frequency("TextLabel"), 0);
    api.update_freq("Size", 2);
    assert_eq!(api.term_frequency("Size"), 5);
}

#[test]
fn frequency_saturates() {
    let mut api = loaded();
    api.update_freq("Frame Frame", usize::MAX);
    assert_eq!(api.term_frequency("Frame"), usize::MAX);
    api.update_freq("Frame", 1);
    assert_eq!(api.term_frequency("Frame"), usize::MAX);
}

#[test]
fn instance_search_is_case_insensitive_subsequence() {
    let api = loaded();
    let mut found = api.get_all_inst("TXT").unwrap();
    found.sort();
    assert_eq!(found, vec!["TextButton".to_string(), "TextLabel".to_string()]);
    for name in api.get_all_inst("fme").unwrap() {
        assert!(api.is_subsequence("fme", &name));
    }
    assert!(api.is_subsequence("", "Frame"));
    assert!(!api.is_subsequence("xf", "Frame"));
}

#[test]
fn empty_query_returns_every_name() {
    let api = loaded();
    let all = api.get_all_inst("").unwrap();
    assert_eq!(all, vec!["TextButton".to_string(), "TextLabel".to_string(), "Frame".to_string()]);
}

#[test]
fn completion_offers_ranked_properties() {
    let mut api = loaded();
    api.update_freq("Visible", 1);
    let doc = "local React = require(S.React)\nReact.createElement(\"Frame\", {})";
    let items = get_completion_items(doc, &Position { line: 1, character: 30 }, &api).unwrap();
    assert_eq!(
        items,
        vec![
            CompletionCandidate {
                name: "Visible".to_string(),
                kind: CandidateKind::Property,
                detail: Some("bool".to_string()),
            },
            CompletionCandidate {
                name: "Size".to_string(),
                kind: CandidateKind::Property,
                detail: Some("UDim2".to_string()),
            },
        ]
    );
}

#[test]
fn completion_offers_matching_classes() {
    let api = loaded();
    let doc = "local React = require(S.React)\nReact.createElement(\"tex\", {})";
    let items = get_completion_items(doc, &Position { line: 1, character: 24 }, &api).unwrap();
    let names: Vec<&str> = items.iter().map(|c| c.name.as_str()).collect();
    assert_eq!(names, vec!["TextButton", "TextLabel"]);
    assert!(items.iter().all(|c| c.kind == CandidateKind::InstanceClass && c.detail.is_none()));
}

#[test]
fn completion_offers_events_in_brackets() {
    let api = loaded();
    let doc = "local React = require(S.React)\nReact.createElement(\"TextButton\", {[React.Event.]})";
    let items = get_completion_items(doc, &Position { line: 1, character: 48 }, &api).unwrap();
    assert_eq!(items.len(), 1);
    assert_eq!(items[0].name, "Activated");
    assert_eq!(items[0].kind, CandidateKind::Event);
}

#[test]
fn value_type_default_is_empty() {
    let v = ValueType::default();
    assert_eq!(v.name, "");
    assert_eq!(v.category, "");
}

#[test]
fn metadata_follows_the_superclass_chain() {
    let mut derived = entry("Derived", &[("Text", "string")]);
    derived.superclass = "Base".to_string();
    let entries = vec![
        entry("Base", &[("Name", "string")]),
        derived,
        entry("Lonely", &[]),
    ];
    let props = get_metadata(&entries, "Derived").unwrap();
    let names: Vec<&str> = props.iter().map(|p| p.name.as_str()).collect();
    assert_eq!(names, vec!["Text", "Name"]);
    assert_eq!(get_metadata(&entries, "Lonely").map(|v| v.len()), None);
    assert_eq!(get_metadata(&entries, "Missing").map(|v| v.len()), None);
}

#[test]
fn event_names_are_tracked_terms() {
    let mut api = loaded();
    api.update_freq("Activated, Activated!", 1);
    assert_eq!(api.term_frequency("Activated"), 2);
}

#[test]
fn subsequence_is_in_order_and_case_sensitive() {
    assert!(subsequence_of("tb", "textbutton"));
    assert!(subsequence_of("", ""));
    assert!(!subsequence_of("bt", "tb"));
    assert!(!subsequence_of("T", "text"));
    assert!(!subsequence_of("ab", "a"));
}

#[test]
fn alias_call_completes_classes_by_typed_prefix() {
    let api = loaded();
    let doc = "local React = require(S.React)\nlocal e = React.createElement\ne(\"Button\", {})";
    let items = get_completion_items(doc, &Position { line: 2, character: 6 }, &api).unwrap();
    let names: Vec<&str> = items.iter().map(|c| c.name.as_str()).collect();
    assert_eq!(names, api.get_all_inst("But").unwrap());
    assert_eq!(names, vec!["TextButton"]);
}

#[test]
fn truncated_call_completes_properties() {
    let api = loaded();
    let doc = "local React = require(S.React)\nReact.createElement(\"Frame\", {Te";
    let items = get_completion_items(doc, &Position { line: 1, character: 32 }, &api).unwrap();
    let got: Vec<(String, Option<String>)> =
        items.into_iter().map(|c| (c.name, c.detail)).collect();
    let expected: Vec<(String, Option<String>)> = api
        .lookup_properties("Frame")
        .unwrap()
        .into_iter()
        .map(|(n, t)| (n, Some(t)))
        .collect();
    assert_eq!(got, expected);
    assert_eq!(got.len(), 2);
}
