use mhttp::convert::{field_as, ConversionError, FromJsonValue, JsonKind};
use mhttp::jsonable::{FromJsonError, Jsonable};
use mhttp::number::Number;
use mhttp::parser::Parser;
use mhttp::value::JsonValue;
use mhttp::writer::escape_json_string;

fn num(text: &str) -> JsonValue {
    JsonValue::Number(Number::new(text).expect("a number literal"))
}

fn text(s: &str) -> JsonValue {
    JsonValue::String(s.to_string())
}

fn mismatch<T>(expected: JsonKind, found: JsonKind) -> Result<T, ConversionError> {
    Err(ConversionError::TypeMismatch { expected, found })
}

#[test]
fn null_converts_to_an_absent_string() {
    assert_eq!(Option::<String>::from_json_value(&JsonValue::Null), Ok(None));
}

#[test]
fn a_number_converts_to_a_present_number() {
    let converted = Option::<Number>::from_json_value(&num("3.5")).expect("a number");
    let present = converted.expect("present");
    assert_eq!(present.as_str().parse::<f64>(), Ok(3.5));
    assert_eq!(present, Number::new("3.5").unwrap());
}

#[test]
fn a_string_is_no_sequence_of_numbers() {
    assert_eq!(
        Vec::<Number>::from_json_value(&text("x")),
        mismatch(JsonKind::Array, JsonKind::String)
    );
}

#[test]
fn the_first_of_two_equal_keys_wins() {
    let tree = Parser::parse_json(r#"{"a":1,"a":2}"#).unwrap();
    assert_eq!(tree.field("a"), Ok(&num("1")));
    assert_eq!(field_as::<Number>(&tree, "a"), Ok(Number::new("1").unwrap()));
}

#[test]
fn a_string_converts_only_from_a_string() {
    assert_eq!(String::from_json_value(&text("abc")), Ok("abc".to_string()));
    assert_eq!(String::from_json_value(&text("")), Ok(String::new()));
    assert_eq!(String::from_json_value(&num("1")), mismatch(JsonKind::String, JsonKind::Number));
    assert_eq!(
        String::from_json_value(&JsonValue::Null),
        mismatch(JsonKind::String, JsonKind::Null)
    );
    assert_eq!(
        String::from_json_value(&JsonValue::Object(vec![])),
        mismatch(JsonKind::String, JsonKind::Object)
    );
}

#[test]
fn a_number_converts_only_from_a_number() {
    assert_eq!(Number::from_json_value(&num("-1.25")), Ok(Number::new("-1.25").unwrap()));
    assert_eq!(Number::from_json_value(&text("1")), mismatch(JsonKind::Number, JsonKind::String));
    assert_eq!(
        Number::from_json_value(&JsonValue::Boolean(true)),
        mismatch(JsonKind::Number, JsonKind::Boolean)
    );
}

#[test]
fn a_bool_converts_only_from_a_boolean() {
    assert_eq!(bool::from_json_value(&JsonValue::Boolean(true)), Ok(true));
    assert_eq!(bool::from_json_value(&JsonValue::Boolean(false)), Ok(false));
    assert_eq!(
        bool::from_json_value(&JsonValue::Array(vec![])),
        mismatch(JsonKind::Boolean, JsonKind::Array)
    );
    assert_eq!(bool::from_json_value(&num("0")), mismatch(JsonKind::Boolean, JsonKind::Number));
}

#[test]
fn an_option_passes_the_inner_failure_on() {
    assert_eq!(Option::<bool>::from_json_value(&JsonValue::Boolean(true)), Ok(Some(true)));
    assert_eq!(
        Option::<bool>::from_json_value(&text("x")),
        mismatch(JsonKind::Boolean, JsonKind::String)
    );
    assert_eq!(Option::<Option<bool>>::from_json_value(&JsonValue::Null), Ok(None));
    assert_eq!(
        Option::<Vec<bool>>::from_json_value(&JsonValue::Array(vec![JsonValue::Boolean(false)])),
        Ok(Some(vec![false]))
    );
}

#[test]
fn a_sequence_converts_item_by_item() {
    let array = JsonValue::Array(vec![text("a"), text("b"), text("c")]);
    assert_eq!(
        Vec::<String>::from_json_value(&array),
        Ok(vec!["a".to_string(), "b".to_string(), "c".to_string()])
    );
    assert_eq!(Vec::<String>::from_json_value(&JsonValue::Array(vec![])), Ok(vec![]));
    assert_eq!(
        Vec::<Option<bool>>::from_json_value(&JsonValue::Array(vec![
            JsonValue::Null,
            JsonValue::Boolean(true),
        ])),
        Ok(vec![None, Some(true)])
    );
}

#[test]
fn a_sequence_names_the_first_item_that_fails() {
    let array = JsonValue::Array(vec![text("a"), num("1"), JsonValue::Null, text("d")]);
    assert_eq!(
        Vec::<String>::from_json_value(&array),
        Err(ConversionError::ArrayElementError {
            index: 1,
            inner: Box::new(ConversionError::TypeMismatch {
                expected: JsonKind::String,
                found: JsonKind::Number,
            }),
        })
    );
}

#[test]
fn sequences_nest() {
    let tree = Parser::parse_json("[[true],[false,true],[]]").unwrap();
    assert_eq!(
        Vec::<Vec<bool>>::from_json_value(&tree),
        Ok(vec![vec![true], vec![false, true], vec![]])
    );
    let tree = Parser::parse_json("[[true],[false,1]]").unwrap();
    assert_eq!(
        Vec::<Vec<bool>>::from_json_value(&tree),
        Err(ConversionError::ArrayElementError {
            index: 1,
            inner: Box::new(ConversionError::ArrayElementError {
                index: 1,
                inner: Box::new(ConversionError::TypeMismatch {
                    expected: JsonKind::Boolean,
                    found: JsonKind::Number,
                }),
            }),
        })
    );
}

#[test]
fn a_value_that_is_no_array_is_no_sequence() {
    assert_eq!(
        Vec::<bool>::from_json_value(&JsonValue::Object(vec![])),
        mismatch(JsonKind::Array, JsonKind::Object)
    );
    assert_eq!(
        Vec::<bool>::from_json_value(&JsonValue::Null),
        mismatch(JsonKind::Array, JsonKind::Null)
    );
}

#[test]
fn every_value_has_its_kind() {
    assert_eq!(JsonValue::Null.kind(), JsonKind::Null);
    assert_eq!(JsonValue::Boolean(false).kind(), JsonKind::Boolean);
    assert_eq!(num("1").kind(), JsonKind::Number);
    assert_eq!(text("").kind(), JsonKind::String);
    assert_eq!(JsonValue::Array(vec![]).kind(), JsonKind::Array);
    assert_eq!(JsonValue::Object(vec![]).kind(), JsonKind::Object);
}

#[test]
fn every_kind_has_its_name() {
    assert_eq!(JsonKind::Null.name(), "null");
    assert_eq!(JsonKind::Boolean.name(), "boolean");
    assert_eq!(JsonKind::Number.name(), "number");
    assert_eq!(JsonKind::String.name(), "string");
    assert_eq!(JsonKind::Array.name(), "array");
    assert_eq!(JsonKind::Object.name(), "object");
}

#[test]
fn a_missing_key_is_told_from_a_failed_conversion() {
    let tree = Parser::parse_json(r#"{"name":"Ada","age":"old"}"#).unwrap();
    assert_eq!(field_as::<String>(&tree, "name"), Ok("Ada".to_string()));
    assert_eq!(
        field_as::<Number>(&tree, "age"),
        mismatch(JsonKind::Number, JsonKind::String)
    );
    assert_eq!(
        field_as::<Number>(&tree, "height"),
        Err(ConversionError::MissingField { name: "height".to_string() })
    );
    assert_eq!(
        tree.field("Name"),
        Err(ConversionError::MissingField { name: "Name".to_string() })
    );
    assert_eq!(
        tree.field(""),
        Err(ConversionError::MissingField { name: String::new() })
    );
}

#[test]
fn the_order_of_members_does_not_matter_to_lookup() {
    let ab = Parser::parse_json(r#"{"a":1,"b":2}"#).unwrap();
    let ba = Parser::parse_json(r#"{"b":2,"a":1}"#).unwrap();
    assert_eq!(ab.field("a"), ba.field("a"));
    assert_eq!(ab.field("b"), ba.field("b"));
    assert_eq!(ab.field("b"), Ok(&num("2")));
}

#[test]
fn only_an_object_has_fields() {
    assert_eq!(
        JsonValue::Array(vec![]).field("a"),
        mismatch(JsonKind::Object, JsonKind::Array)
    );
    assert_eq!(
        field_as::<bool>(&JsonValue::Null, "a"),
        mismatch(JsonKind::Object, JsonKind::Null)
    );
    assert_eq!(
        JsonValue::Object(vec![]).field("a"),
        Err(ConversionError::MissingField { name: "a".to_string() })
    );
}

#[test]
fn an_absent_member_is_not_a_null_member() {
    let tree = Parser::parse_json(r#"{"a":null}"#).unwrap();
    assert_eq!(field_as::<Option<String>>(&tree, "a"), Ok(None));
    assert_eq!(
        field_as::<Option<String>>(&tree, "b"),
        Err(ConversionError::MissingField { name: "b".to_string() })
    );
}

#[derive(Debug, PartialEq)]
struct Person {
    name: String,
    admin: bool,
    nick: Option<String>,
    scores: Vec<Number>,
}

impl FromJsonValue for Person {
    fn from_json_value(value: &JsonValue) -> Result<Self, ConversionError> {
        Ok(Person {
            name: field_as(value, "name")?,
            admin: field_as(value, "admin")?,
            nick: field_as(value, "nick")?,
            scores: field_as(value, "scores")?,
        })
    }
}

impl Jsonable for Person {
    fn into_json(&self) -> String {
        let nick = match &self.nick {
            Some(nick) => format!("\"{}\"", escape_json_string(nick)),
            None => "null".to_string(),
        };
        let scores: Vec<&str> = self.scores.iter().map(|n| n.as_str()).collect();
        format!(
            "{{\"name\":\"{}\",\"admin\":{},\"nick\":{},\"scores\":[{}]}}",
            escape_json_string(&self.name),
            self.admin,
            nick,
            scores.join(",")
        )
    }

    fn from_json(json_string: &str) -> Result<Self, FromJsonError> {
        let tree = Parser::parse_json(json_string).map_err(FromJsonError::Syntax)?;
        Person::from_json_value(&tree).map_err(FromJsonError::Conversion)
    }
}

#[test]
fn a_record_is_bound_field_by_field() {
    let person = Person::from_json(
        r#"{"scores":[1,2.5],"nick":null,"name":"Ada \"L\"","admin":true,"name":"other"}"#,
    );
    let expected = Person {
        name: "Ada \"L\"".to_string(),
        admin: true,
        nick: None,
        scores: vec![Number::new("1").unwrap(), Number::new("2.5").unwrap()],
    };
    assert_eq!(person, Ok(expected));
    let person = person.unwrap();
    assert_eq!(Person::from_json(&person.into_json()), Ok(person));
}

#[test]
fn a_record_reports_what_is_wrong_with_its_field() {
    assert_eq!(
        Person::from_json(r#"{"name":"Ada","admin":true,"nick":null}"#),
        Err(FromJsonError::Conversion(ConversionError::MissingField {
            name: "scores".to_string()
        }))
    );
    assert_eq!(
        Person::from_json(r#"{"name":"Ada","admin":true,"nick":null,"scores":[1,"2"]}"#),
        Err(FromJsonError::Conversion(ConversionError::ArrayElementError {
            index: 1,
            inner: Box::new(ConversionError::TypeMismatch {
                expected: JsonKind::Number,
                found: JsonKind::String,
            }),
        }))
    );
    assert_eq!(
        Person::from_json("[]"),
        Err(FromJsonError::Conversion(ConversionError::TypeMismatch {
            expected: JsonKind::Object,
            found: JsonKind::Array,
        }))
    );
    assert!(matches!(Person::from_json("{"), Err(FromJsonError::Syntax(_))));
}

#[test]
fn records_nest_in_sequences_and_options() {
    let tree = Parser::parse_json(
        r#"[{"name":"a","admin":false,"nick":"x","scores":[]},null]"#,
    )
    .unwrap();
    assert_eq!(
        Vec::<Option<Person>>::from_json_value(&tree),
        Ok(vec![
            Some(Person {
                name: "a".to_string(),
                admin: false,
                nick: Some("x".to_string()),
                scores: vec![],
            }),
            None,
        ])
    );
}
