use mhttp::jsonable::{FromJsonError, Jsonable};
use mhttp::number::Number;
use mhttp::parser::{JsonError, ParseError, Parser};
use mhttp::value::JsonValue;
use mhttp::writer::{escape_json_string, write_value};

fn num(text: &str) -> JsonValue {
    JsonValue::Number(Number::new(text).expect("a number literal"))
}

fn text(s: &str) -> JsonValue {
    JsonValue::String(s.to_string())
}

fn sample() -> JsonValue {
    JsonValue::Object(vec![
        ("name".to_string(), text("Ada \"the\" first\n")),
        ("age".to_string(), num("36")),
        ("ratio".to_string(), num("-0.50")),
        ("tags".to_string(), JsonValue::Array(vec![text("a"), JsonValue::Null, JsonValue::Boolean(false)])),
        ("empty".to_string(), JsonValue::Object(vec![])),
        ("none".to_string(), JsonValue::Array(vec![])),
        ("name".to_string(), JsonValue::Boolean(true)),
    ])
}

#[test]
fn leaves_are_written_as_their_literals() {
    assert_eq!(JsonValue::Null.serialize(), "null");
    assert_eq!(JsonValue::Boolean(true).serialize(), "true");
    assert_eq!(JsonValue::Boolean(false).serialize(), "false");
    assert_eq!(num("12.5").serialize(), "12.5");
    assert_eq!(num("-007").serialize(), "-007");
    assert_eq!(text("hi").serialize(), "\"hi\"");
    assert_eq!(text("").serialize(), "\"\"");
}

#[test]
fn containers_are_written_without_whitespace() {
    assert_eq!(JsonValue::Array(vec![]).serialize(), "[]");
    assert_eq!(JsonValue::Object(vec![]).serialize(), "{}");
    assert_eq!(JsonValue::Array(vec![num("1")]).serialize(), "[1]");
    assert_eq!(
        JsonValue::Array(vec![num("1"), num("2"), JsonValue::Array(vec![])]).serialize(),
        "[1,2,[]]"
    );
    assert_eq!(
        JsonValue::Object(vec![("a".to_string(), num("1"))]).serialize(),
        "{\"a\":1}"
    );
    assert_eq!(
        sample().serialize(),
        "{\"name\":\"Ada \\\"the\\\" first\\n\",\"age\":36,\"ratio\":-0.50,\"tags\":[\"a\",null,false],\"empty\":{},\"none\":[],\"name\":true}"
    );
}

#[test]
fn quotes_backslashes_and_controls_are_escaped() {
    assert_eq!(escape_json_string("plain"), "plain");
    assert_eq!(escape_json_string("a\"b"), "a\\\"b");
    assert_eq!(escape_json_string("a\\b"), "a\\\\b");
    assert_eq!(escape_json_string("\u{8}\t\n\u{c}\r"), "\\b\\t\\n\\f\\r");
    assert_eq!(escape_json_string("\u{0}"), "\\u0000");
    assert_eq!(escape_json_string("\u{1}\u{b}\u{1f}"), "\\u0001\\u000b\\u001f");
    assert_eq!(escape_json_string("\u{10}\u{1a}"), "\\u0010\\u001a");
    assert_eq!(escape_json_string("\u{7f}\u{80}\u{9f}"), "\\u007f\\u0080\\u009f");
    assert_eq!(escape_json_string(" /~\u{a0}\u{e9}\u{1F600}"), " /~\u{a0}\u{e9}\u{1F600}");
    assert_eq!(escape_json_string(""), "");
}

#[test]
fn keys_are_escaped_like_strings() {
    assert_eq!(
        JsonValue::Object(vec![("a\"\n".to_string(), JsonValue::Null)]).serialize(),
        "{\"a\\\"\\n\":null}"
    );
}

#[test]
fn write_value_appends() {
    let mut out = String::from("x=");
    write_value(&mut out, &JsonValue::Array(vec![JsonValue::Null, text("y")]));
    assert_eq!(out, "x=[null,\"y\"]");
}

#[test]
fn a_written_tree_reads_back_as_itself() {
    let tree = sample();
    assert_eq!(Parser::parse_json(&tree.serialize()), Ok(sample()));
}

#[test]
fn every_character_survives_a_round_trip_in_a_string() {
    let mut all = String::new();
    for code in 0..0x300u32 {
        all.push(char::from_u32(code).unwrap());
    }
    all.push('\u{2028}');
    all.push('\u{FFFF}');
    all.push('\u{10000}');
    all.push('\u{10FFFF}');
    let tree = JsonValue::Array(vec![
        JsonValue::String(all.clone()),
        JsonValue::Object(vec![(all.clone(), JsonValue::String(all))]),
    ]);
    let written = tree.serialize();
    assert!(written.chars().all(|c| !c.is_control()));
    assert_eq!(Parser::parse_json(&written), Ok(tree));
}

#[test]
fn reading_writing_and_reading_again_changes_nothing() {
    let documents = [
        "null",
        " [ 1 , 2.50 , -3 , \"x\" ] ",
        "{\"a\":[1,2,{\"b\":true}]}",
        "{ \"k\" : \"\\u0041\\ud83d\\ude00\\/\" , \"k\" : [ [ ] , { } ] }",
        "\"tab\\there\"",
        "[[[[[[]]]]]]",
        "007",
    ];
    for document in documents {
        let first = Parser::parse_json(document).expect("a document");
        let second = Parser::parse_json(&first.serialize()).expect("a document");
        assert_eq!(second, first, "{}", document);
        assert_eq!(second.serialize(), first.serialize());
    }
}

#[test]
fn writing_normalizes_whitespace_and_escapes_only() {
    let tree = Parser::parse_json(" { \"a\" : [ 1.0 , \"\\u0041\\n\" ] } ").unwrap();
    assert_eq!(tree.serialize(), "{\"a\":[1.0,\"A\\n\"]}");
}

#[test]
fn a_deep_tree_is_written_without_a_deep_stack() {
    let depth = 200_000;
    let mut json = String::new();
    for _ in 0..depth {
        json.push_str("[{\"k\":");
    }
    json.push_str("null");
    for _ in 0..depth {
        json.push_str("}]");
    }
    let tree = Parser::parse_json(&json).expect("a document");
    assert_eq!(tree.serialize(), json);
    // Dropping the tree would recurse once per level.
    std::mem::forget(tree);
}

#[test]
fn a_tree_is_jsonable() {
    let tree = sample();
    assert_eq!(tree.into_json(), tree.serialize());
    assert_eq!(JsonValue::from_json("[null]"), Ok(JsonValue::Array(vec![JsonValue::Null])));
    assert_eq!(
        JsonValue::from_json("[null"),
        Err(FromJsonError::Syntax(JsonError::Parse(ParseError::UnexpectedEndOfInput)))
    );
}
