use mhttp::lexer::{tokenize, tokenize_chars, LexError};
use mhttp::number::Number;
use mhttp::text::{is_control, is_whitespace};
use mhttp::token::Token;

fn number(text: &str) -> Token {
    Token::Number(Number::new(text).expect("a number literal"))
}

fn string(text: &str) -> Token {
    Token::String(text.to_string())
}

#[test]
fn structural_characters_are_one_token_each() {
    assert_eq!(
        tokenize("{}[]:,"),
        Ok(vec![
            Token::CurlyOpen,
            Token::CurlyClose,
            Token::BracketOpen,
            Token::BracketClose,
            Token::Colon,
            Token::Comma,
        ])
    );
}

#[test]
fn empty_text_has_no_tokens() {
    assert_eq!(tokenize(""), Ok(vec![]));
    assert_eq!(tokenize(" \t\r\n"), Ok(vec![]));
}

#[test]
fn keywords_are_matched_by_length() {
    assert_eq!(
        tokenize("true false null"),
        Ok(vec![Token::Boolean(true), Token::Boolean(false), Token::Null])
    );
    assert_eq!(
        tokenize("truefalse"),
        Ok(vec![Token::Boolean(true), Token::Boolean(false)])
    );
}

#[test]
fn a_wrong_keyword_is_rejected_where_it_starts() {
    assert_eq!(tokenize("tru"), Err(LexError::InvalidKeywordLiteral { position: 0 }));
    assert_eq!(tokenize("[nul]"), Err(LexError::InvalidKeywordLiteral { position: 1 }));
    assert_eq!(tokenize(" falsy"), Err(LexError::InvalidKeywordLiteral { position: 1 }));
    assert_eq!(tokenize("t"), Err(LexError::InvalidKeywordLiteral { position: 0 }));
    assert_eq!(tokenize("True"), Err(LexError::UnexpectedCharacter { ch: 'T', position: 0 }));
}

#[test]
fn numbers_keep_their_literal() {
    assert_eq!(tokenize("0"), Ok(vec![number("0")]));
    assert_eq!(tokenize("-12.50"), Ok(vec![number("-12.50")]));
    assert_eq!(tokenize("007"), Ok(vec![number("007")]));
    assert_eq!(tokenize("1,2"), Ok(vec![number("1"), Token::Comma, number("2")]));
    assert_eq!(
        tokenize("123 456"),
        Ok(vec![number("123"), number("456")])
    );
}

#[test]
fn malformed_numbers_are_rejected_where_they_start() {
    assert_eq!(tokenize("-"), Err(LexError::InvalidNumberLiteral { position: 0 }));
    assert_eq!(tokenize("1."), Err(LexError::InvalidNumberLiteral { position: 0 }));
    assert_eq!(tokenize("-.5"), Err(LexError::InvalidNumberLiteral { position: 0 }));
    assert_eq!(tokenize("1.2.3"), Err(LexError::InvalidNumberLiteral { position: 0 }));
    assert_eq!(tokenize("1-2"), Err(LexError::InvalidNumberLiteral { position: 0 }));
    assert_eq!(tokenize("--1"), Err(LexError::InvalidNumberLiteral { position: 0 }));
    assert_eq!(tokenize("[1, 2..3]"), Err(LexError::InvalidNumberLiteral { position: 4 }));
}

#[test]
fn exponents_are_no_part_of_a_number() {
    assert_eq!(tokenize("1e10"), Err(LexError::UnexpectedCharacter { ch: 'e', position: 1 }));
}

#[test]
fn a_leading_dot_or_plus_starts_no_token() {
    assert_eq!(tokenize(".5"), Err(LexError::UnexpectedCharacter { ch: '.', position: 0 }));
    assert_eq!(tokenize("+1"), Err(LexError::UnexpectedCharacter { ch: '+', position: 0 }));
}

#[test]
fn number_literals_are_validated_by_the_constructor() {
    assert!(Number::new("3.5").is_some());
    assert!(Number::new("-0").is_some());
    assert!(Number::new("").is_none());
    assert!(Number::new("1e3").is_none());
    assert!(Number::new("1.").is_none());
    assert!(Number::new(".1").is_none());
    assert!(Number::new("- 1").is_none());
    assert_eq!(Number::new("10.25").unwrap().as_str(), "10.25");
}

#[test]
fn strings_are_collected_up_to_the_closing_quote() {
    assert_eq!(tokenize("\"\""), Ok(vec![string("")]));
    assert_eq!(tokenize("\"hello world\""), Ok(vec![string("hello world")]));
    assert_eq!(tokenize("\"a\"\"b\""), Ok(vec![string("a"), string("b")]));
    assert_eq!(tokenize("\"{[:,]}\""), Ok(vec![string("{[:,]}")]));
}

#[test]
fn strings_hold_characters_not_bytes() {
    assert_eq!(tokenize("\"h\u{e9}llo \u{1F600}\""), Ok(vec![string("h\u{e9}llo \u{1F600}")]));
    assert_eq!(
        tokenize("\u{e9}"),
        Err(LexError::UnexpectedCharacter { ch: '\u{e9}', position: 0 })
    );
    assert_eq!(
        tokenize("\"\u{1F600}\" ?"),
        Err(LexError::UnexpectedCharacter { ch: '?', position: 4 })
    );
}

#[test]
fn escape_sequences_are_decoded() {
    assert_eq!(tokenize(r#""a\"b""#), Ok(vec![string("a\"b")]));
    assert_eq!(tokenize(r#""a\\b""#), Ok(vec![string("a\\b")]));
    assert_eq!(tokenize(r#""a\/b""#), Ok(vec![string("a/b")]));
    assert_eq!(
        tokenize(r#""\b\f\n\r\t""#),
        Ok(vec![string("\u{8}\u{c}\n\r\t")])
    );
    assert_eq!(tokenize(r#""\\""#), Ok(vec![string("\\")]));
}

#[test]
fn unicode_escapes_are_decoded() {
    assert_eq!(tokenize(r#""\u0041""#), Ok(vec![string("A")]));
    assert_eq!(tokenize(r#""\u00e9\u00E9""#), Ok(vec![string("\u{e9}\u{e9}")]));
    assert_eq!(tokenize(r#""\u0000""#), Ok(vec![string("\u{0}")]));
    assert_eq!(tokenize(r#""\uFFFF""#), Ok(vec![string("\u{FFFF}")]));
    assert_eq!(tokenize(r#""\u20ac!""#), Ok(vec![string("\u{20ac}!")]));
    assert_eq!(tokenize(r#""\ud7ff""#), Ok(vec![string("\u{d7ff}")]));
    assert_eq!(tokenize(r#""\ue000""#), Ok(vec![string("\u{e000}")]));
}

#[test]
fn surrogate_pairs_are_decoded_as_one_character() {
    assert_eq!(tokenize(r#""\ud83d\ude00""#), Ok(vec![string("\u{1F600}")]));
    assert_eq!(tokenize(r#""\ud800\udc00""#), Ok(vec![string("\u{10000}")]));
    assert_eq!(tokenize(r#""\udbff\udfff""#), Ok(vec![string("\u{10FFFF}")]));
    assert_eq!(tokenize(r#""\uD83D\uDE00""#), Ok(vec![string("\u{1F600}")]));
}

#[test]
fn a_backslash_that_starts_no_escape_is_rejected() {
    let backslash = |position| Err(LexError::UnexpectedCharacter { ch: '\\', position });
    assert_eq!(tokenize(r#""\x""#), backslash(1));
    assert_eq!(tokenize(r#""ab\q""#), backslash(3));
    assert_eq!(tokenize(r#""\u12""#), backslash(1));
    assert_eq!(tokenize(r#""\u12G4""#), backslash(1));
    assert_eq!(tokenize(r#""\ud83d""#), backslash(1));
    assert_eq!(tokenize(r#""\ud83dA""#), backslash(1));
    assert_eq!(tokenize(r#""\ude00""#), backslash(1));
    assert_eq!(tokenize("\"\\"), backslash(1));
}

#[test]
fn an_unterminated_string_is_rejected_at_its_opening_quote() {
    assert_eq!(tokenize("\"abc"), Err(LexError::UnexpectedCharacter { ch: '"', position: 0 }));
    assert_eq!(tokenize("[1, \"abc"), Err(LexError::UnexpectedCharacter { ch: '"', position: 4 }));
    assert_eq!(tokenize("\""), Err(LexError::UnexpectedCharacter { ch: '"', position: 0 }));
    assert_eq!(tokenize(r#""a\""#), Err(LexError::UnexpectedCharacter { ch: '"', position: 0 }));
}

#[test]
fn any_other_character_is_unexpected() {
    assert_eq!(tokenize("@"), Err(LexError::UnexpectedCharacter { ch: '@', position: 0 }));
    assert_eq!(tokenize("[1, x]"), Err(LexError::UnexpectedCharacter { ch: 'x', position: 4 }));
    assert_eq!(tokenize("'a'"), Err(LexError::UnexpectedCharacter { ch: '\'', position: 0 }));
}

#[test]
fn the_first_error_wins() {
    assert_eq!(tokenize("tru @"), Err(LexError::InvalidKeywordLiteral { position: 0 }));
    assert_eq!(tokenize("@ tru"), Err(LexError::UnexpectedCharacter { ch: '@', position: 0 }));
}

#[test]
fn unicode_whitespace_is_skipped() {
    assert_eq!(
        tokenize("\u{a0}1\u{2003}\u{3000}2\u{2028}"),
        Ok(vec![number("1"), number("2")])
    );
    assert_eq!(
        tokenize("\u{200b}"),
        Err(LexError::UnexpectedCharacter { ch: '\u{200b}', position: 0 })
    );
}

#[test]
fn whitespace_is_what_std_calls_whitespace() {
    for code in 0..=0x10FFFFu32 {
        if let Some(c) = char::from_u32(code) {
            assert_eq!(is_whitespace(c), c.is_whitespace(), "U+{:04X}", code);
        }
    }
}

#[test]
fn control_is_what_std_calls_control() {
    for code in 0..=0x10FFFFu32 {
        if let Some(c) = char::from_u32(code) {
            assert_eq!(is_control(c), c.is_control(), "U+{:04X}", code);
        }
    }
}

#[test]
fn a_text_given_by_its_characters_is_lexed_alike() {
    let text = "{\"k\": [true, null, -1.5]}";
    let chars: Vec<char> = text.chars().collect();
    assert_eq!(tokenize_chars(&chars), tokenize(text));
}

#[test]
fn a_mixed_document_is_lexed_in_order() {
    assert_eq!(
        tokenize("{\"a\": [1, 2.5, true, null, \"x\\ny\"]}"),
        Ok(vec![
            Token::CurlyOpen,
            string("a"),
            Token::Colon,
            Token::BracketOpen,
            number("1"),
            Token::Comma,
            number("2.5"),
            Token::Comma,
            Token::Boolean(true),
            Token::Comma,
            Token::Null,
            Token::Comma,
            string("x\ny"),
            Token::BracketClose,
            Token::CurlyClose,
        ])
    );
}
