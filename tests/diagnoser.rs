use rblx_react_lsp::{
    extract_name_from_span, extract_react_inst_name, extract_react_var_name, find_matching_brace,
    find_matching_bracket, find_mattching_paren, get_create_element_macros, get_react_var_name,
    has_react,
};

#[test]
fn find_inst_name_in_args() {
    assert_eq!(
        extract_react_inst_name(r#"'Frame', { ... }"#),
        Some("Frame".to_string())
    );
    assert_eq!(
        extract_react_inst_name(r#"`TextLabel`,\n { ["Test"] = "Huh", ... }"#),
        Some("TextLabel".to_string())
    );
    assert_eq!(
        extract_react_inst_name(
            r#""UIPadding",
            {
                Text = "Wrong Answer"
            }"#
        ),
        Some("UIPadding".to_string())
    );
    assert_eq!(extract_react_inst_name(r#"[Frame], { ... }"#), None);
    assert_eq!(
        extract_react_inst_name(
            r#"{
            ["Test"] = "Wrong",
        }"#
        ),
        None
    );
    assert_eq!(extract_react_inst_name(r#"{"Wrong"}"#), None);
}

#[test]
fn has_react_test() {
    assert!(has_react(
        r#"local React = require(ReplicatedStorage.Packages.React)"#
    ));
    assert!(has_react(r#"require(ReplicatedStorage.Packages.React)"#));
    assert!(has_react(r#"local Nothing = require(script.Parent.React)"#));
    assert!(!has_react(r#"require(script.Parent.NotReact)"#))
}

#[test]
fn find_var_name() {
    assert_eq!(
        extract_react_var_name(r#"local React = require(ReplicatedStorage.Packages.React)"#),
        Some("React".to_string())
    );
    assert_eq!(
        extract_react_var_name(r#"require(ReplicatedStorage.Packages.React)"#),
        None
    );
    assert_eq!(
        extract_react_var_name(r#"local React = require(ReplicatedStorage.Packages.NotReact)"#),
        None
    )
}

#[test]
fn test_react_variable_name_search() {
    assert_eq!(
        get_react_var_name(r#"local Test = require(Somewhere.Somehow.Sometime.React);"#),
        Some("Test".to_string())
    );
    assert_eq!(
        get_react_var_name(r#"local Test = require(Somewhere.Somehow.Sometime.React)"#),
        Some("Test".to_string())
    );
    assert_eq!(
        get_react_var_name(r#"local _Best123 = require(Somewhere.Somehow.Sometime.React);"#),
        Some("_Best123".to_string())
    );
    assert_eq!(
        get_react_var_name(r#"local P = require(Test.React)"#),
        Some("P".to_string())
    );
}

#[test]
fn file_diagnoser_test_react_variable_name_search() {
    assert_eq!(
        get_react_var_name(r#"local Test = require(Somewhere.Somehow.Sometime.React);"#),
        Some("Test".to_string())
    );
    assert_eq!(
        get_react_var_name(r#"local Test = require(Somewhere.Somehow.Sometime.React)"#),
        Some("Test".to_string())
    );
    assert_eq!(
        get_react_var_name(r#"local _Best123 = require(Somewhere.Somehow.Sometime.React);"#),
        Some("_Best123".to_string())
    );
    assert_eq!(
        get_react_var_name(r#"local P = require(Test.React)"#),
        Some("P".to_string())
    );
}

#[test]
fn test_instance_names() {
    assert_eq!(
        extract_name_from_span(r#"'Frame', { ... }"#),
        Some("Frame".to_string())
    );
    assert_eq!(
        extract_name_from_span(r#"`TextLabel`,\n { ["Test"] = "Huh", ... }"#),
        Some("TextLabel".to_string())
    );
    assert_eq!(
        extract_name_from_span(
            r#""UIPadding",
            {
                Text = "Wrong Answer"
            }"#
        ),
        Some("UIPadding".to_string())
    );
    assert_eq!(extract_name_from_span(r#"[Frame], { ... }"#), None);
    assert_eq!(
        extract_name_from_span(
            r#"{
            ["Test"] = "Wrong",
        }"#
        ),
        None
    );
    assert_eq!(extract_name_from_span(r#"{"Wrong"}"#), None);
}

#[test]
fn file_diagnoser_test_instance_names() {
    assert_eq!(
        extract_name_from_span(r#"'Frame', { ... }"#),
        Some("Frame".to_string())
    );
    assert_eq!(
        extract_name_from_span(r#"`TextLabel`,\n { ["Test"] = "Huh", ... }"#),
        Some("TextLabel".to_string())
    );
    assert_eq!(
        extract_name_from_span(
            r#""UIPadding",
            {
                Text = "Wrong Answer"
            }"#
        ),
        Some("UIPadding".to_string())
    );
    assert_eq!(extract_name_from_span(r#"[Frame], { ... }"#), None);
    assert_eq!(
        extract_name_from_span(
            r#"{
            ["Test"] = "Wrong",
        }"#
        ),
        None
    );
    assert_eq!(extract_name_from_span(r#"{"Wrong"}"#), None);
}

#[test]
fn test_find_matching_paren() {
    let text = "(simple)";
    assert_eq!(find_mattching_paren(text, 1), 7);

    let text = "(nested (inner))";
    assert_eq!(find_mattching_paren(text, 1), 15);

    let text = "(a (b (c)))";
    assert_eq!(find_mattching_paren(text, 1), 10);

    let text = "(multiple (args), (more))";
    assert_eq!(find_mattching_paren(text, 1), 24);

    let text = "(unclosed";
    assert_eq!(find_mattching_paren(text, 1), text.len());
}

#[test]
fn test_find_matching_brace() {
    let text = "{simple}";
    assert_eq!(find_matching_brace(text, 1), 7);

    let text = "{nested {inner}}";
    assert_eq!(find_matching_brace(text, 1), 15);

    let text = "{a {b {c}}}";
    assert_eq!(find_matching_brace(text, 1), 10);

    let text = "{Visible = f({foo = 1, bar = 2})}";
    assert_eq!(find_matching_brace(text, 1), 32);

    let text = "Visible = f({foo = 1, bar = 2})";
    assert_eq!(find_matching_brace(text, 13), 29);

    let text = "{unclosed";
    assert_eq!(find_matching_brace(text, 1), text.len());
}

#[test]
fn test_find_matching_bracket() {
    let text = "[simple]";
    assert_eq!(find_matching_bracket(text, 1), 7);

    let text = "[nested [inner]]";
    assert_eq!(find_matching_bracket(text, 1), 15);

    let text = "[a [b [c]]]";
    assert_eq!(find_matching_bracket(text, 1), 10);

    let text = "[React.Event.MouseButton1Click] = handler";
    assert_eq!(find_matching_bracket(text, 1), 30);

    let text = "[unclosed";
    assert_eq!(find_matching_bracket(text, 1), text.len());
}

#[test]
fn test_create_element_macros() {
    let doc = r#"
local React = require(game.ReplicatedStorage.React)
local e = React.createElement
local create = React.createElement

local frame = e("Frame", {})
local label = create("TextLabel", {})
"#;

    let macros = get_create_element_macros(doc, doc.len(), "React");
    assert!(macros.contains(&"e".to_string()));
    assert!(macros.contains(&"create".to_string()));
    assert_eq!(macros.len(), 2);

    let before_create = doc.find("local create").unwrap();
    let macros_partial = get_create_element_macros(doc, before_create, "React");
    assert!(macros_partial.contains(&"e".to_string()));
    assert!(!macros_partial.contains(&"create".to_string()));
    assert_eq!(macros_partial.len(), 1);

    let macros_wrong = get_create_element_macros(doc, doc.len(), "WrongName");
    assert_eq!(macros_wrong.len(), 0);
}

#[test]
fn test_create_element_macros_various_formats() {
    let doc1 = r#"
local React = require(game.React)
e = React.createElement
"#;
    let macros1 = get_create_element_macros(doc1, doc1.len(), "React");
    assert!(macros1.contains(&"e".to_string()));

    let doc2 = r#"
local MyReact = require(game.React)
local create = MyReact.createElement
"#;
    let macros2 = get_create_element_macros(doc2, doc2.len(), "MyReact");
    assert!(macros2.contains(&"create".to_string()));

    let doc3 = r#"
local React = require(game.React)
local x = something.else
"#;
    let macros3 = get_create_element_macros(doc3, doc3.len(), "React");
    assert_eq!(macros3.len(), 0);
}

#[test]
fn first_argument_is_trimmed() {
    assert_eq!(
        extract_name_from_span("  'Frame' \t, { Size = s }"),
        Some("Frame".to_string())
    );
    assert_eq!(extract_name_from_span(" [[Long Name]] "), Some("Long Name".to_string()));
    assert_eq!(extract_name_from_span("\"\""), Some(String::new()));
    assert_eq!(extract_name_from_span("'Frame\""), None);
    assert_eq!(extract_react_inst_name(" [[Frame]] "), None);
}
