//! The lexer: from text to tokens.

use vstd::prelude::*;
use crate::number::{is_number_literal, number_literal, Number};
use crate::text::{
    chars_of, digit, hex_digit_value, hex_value, is_digit, is_number_char, is_whitespace,
    number_char, whitespace,
};
use crate::token::{token_views, token_views_push, Token, TokenView};

verus! {

/// Why a text could not be split into tokens. Positions count characters from
/// the start of the text.
#[derive(Debug, Clone, Copy, PartialEq, Eq)]
pub enum LexError {
    /// A character that starts no token. Inside a string literal: a backslash
    /// that starts no escape sequence. For a string literal that the text
    /// ends before its closing quote: the opening quote.
    UnexpectedCharacter { ch: char, position: usize },
    /// A run of digits, `.` and `-` starting at `position` that is no number literal.
    InvalidNumberLiteral { position: usize },
    /// A `t`, `f` or `n` at `position` that does not start `true`, `false` or `null`.
    InvalidKeywordLiteral { position: usize },
}

/// The value of the four hexadecimal digits at `text[i..i + 4]`.
pub open spec fn hex4(text: Seq<char>, i: int) -> Option<int> {
    if 0 <= i && i + 4 <= text.len() && hex_value(text[i]) is Some && hex_value(text[i + 1]) is Some
        && hex_value(text[i + 2]) is Some && hex_value(text[i + 3]) is Some {
        Some(
            ((hex_value(text[i])->0 * 16 + hex_value(text[i + 1])->0) * 16 + hex_value(
                text[i + 2],
            )->0) * 16 + hex_value(text[i + 3])->0,
        )
    } else {
        None
    }
}

/// The character that the escape sequence starting with the backslash at
/// `text[i]` stands for, and the index after the sequence; `None` where no
/// escape sequence starts there.
///
/// The sequences are `\"`, `\\`, `\/`, `\b`, `\f`, `\n`, `\r`, `\t`, `\uXXXX`
/// for a code point that is no surrogate, and a pair `\uXXXX\uXXXX` of a high
/// and a low surrogate for a code point above `0xFFFF`.
pub open spec fn escape_at(text: Seq<char>, i: int) -> Option<(char, int)> {
    if i < 0 || i + 1 >= text.len() {
        None
    } else {
        let c = text[i + 1];
        if c == '"' || c == '\\' || c == '/' {
            Some((c, i + 2))
        } else if c == 'b' {
            Some(('\u{8}', i + 2))
        } else if c == 'f' {
            Some(('\u{c}', i + 2))
        } else if c == 'n' {
            Some(('\n', i + 2))
        } else if c == 'r' {
            Some(('\r', i + 2))
        } else if c == 't' {
            Some(('\t', i + 2))
        } else if c == 'u' {
            match hex4(text, i + 2) {
                None => None,
                Some(hi) => if 0xD800 <= hi <= 0xDBFF {
                    if i + 7 < text.len() && text[i + 6] == '\\' && text[i + 7] == 'u' {
                        match hex4(text, i + 8) {
                            None => None,
                            Some(lo) => if 0xDC00 <= lo <= 0xDFFF {
                                Some(
                                    (
                                        (0x10000 + (hi - 0xD800) * 0x400 + (lo - 0xDC00)) as char,
                                        i + 12,
                                    ),
                                )
                            } else {
                                None
                            },
                        }
                    } else {
                        None
                    }
                } else if 0xDC00 <= hi <= 0xDFFF {
                    None
                } else {
                    Some((hi as char, i + 6))
                },
            }
        } else {
            None
        }
    }
}

/// `r` with `head` put before the text it holds.
pub open spec fn after_chars(head: Seq<char>, r: Result<(Seq<char>, int), LexError>) -> Result<
    (Seq<char>, int),
    LexError,
> {
    match r {
        Ok((s, j)) => Ok((head + s, j)),
        Err(e) => Err(e),
    }
}

/// The rest of the contents of the string literal whose opening quote is
/// `text[open]`, from `text[i]` on, and the index after the literal.
///
/// The literal ends with the next unescaped `"`. A backslash that starts no
/// escape sequence is an error, and so is the end of the text.
pub open spec fn string_at(text: Seq<char>, open: int, i: int) -> Result<
    (Seq<char>, int),
    LexError,
>
    decreases text.len() - i,
{
    if i < 0 || i >= text.len() {
        Err(LexError::UnexpectedCharacter { ch: '"', position: open as usize })
    } else if text[i] == '"' {
        Ok((Seq::empty(), i + 1))
    } else if text[i] == '\\' {
        match escape_at(text, i) {
            None => Err(LexError::UnexpectedCharacter { ch: '\\', position: i as usize }),
            Some((c, j)) => after_chars(seq![c], string_at(text, open, j)),
        }
    } else {
        after_chars(seq![text[i]], string_at(text, open, i + 1))
    }
}

/// The index at which the run of number characters that starts at `i` ends.
pub open spec fn number_end(text: Seq<char>, i: int) -> int
    decreases text.len() - i,
{
    if 0 <= i < text.len() && number_char(text[i]) {
        number_end(text, i + 1)
    } else {
        i
    }
}

/// `word` stands at `text[i..]`.
pub open spec fn word_at(text: Seq<char>, i: int, word: Seq<char>) -> bool {
    0 <= i && i + word.len() <= text.len() && text.subrange(i, i + word.len()) == word
}

/// The token that starts at `text[i]`, which is no whitespace, and the index after it.
pub open spec fn token_at(text: Seq<char>, i: int) -> Result<(TokenView, int), LexError>
    recommends
        0 <= i < text.len(),
{
    let c = text[i];
    if c == '{' {
        Ok((TokenView::CurlyOpen, i + 1))
    } else if c == '}' {
        Ok((TokenView::CurlyClose, i + 1))
    } else if c == '[' {
        Ok((TokenView::BracketOpen, i + 1))
    } else if c == ']' {
        Ok((TokenView::BracketClose, i + 1))
    } else if c == ':' {
        Ok((TokenView::Colon, i + 1))
    } else if c == ',' {
        Ok((TokenView::Comma, i + 1))
    } else if c == '"' {
        match string_at(text, i, i + 1) {
            Ok((s, j)) => Ok((TokenView::String(s), j)),
            Err(e) => Err(e),
        }
    } else if digit(c) || c == '-' {
        let j = number_end(text, i);
        if number_literal(text.subrange(i, j)) {
            Ok((TokenView::Number(text.subrange(i, j)), j))
        } else {
            Err(LexError::InvalidNumberLiteral { position: i as usize })
        }
    } else if c == 't' {
        if word_at(text, i, seq!['t', 'r', 'u', 'e']) {
            Ok((TokenView::Boolean(true), i + 4))
        } else {
            Err(LexError::InvalidKeywordLiteral { position: i as usize })
        }
    } else if c == 'f' {
        if word_at(text, i, seq!['f', 'a', 'l', 's', 'e']) {
            Ok((TokenView::Boolean(false), i + 5))
        } else {
            Err(LexError::InvalidKeywordLiteral { position: i as usize })
        }
    } else if c == 'n' {
        if word_at(text, i, seq!['n', 'u', 'l', 'l']) {
            Ok((TokenView::Null, i + 4))
        } else {
            Err(LexError::InvalidKeywordLiteral { position: i as usize })
        }
    } else {
        Err(LexError::UnexpectedCharacter { ch: c, position: i as usize })
    }
}

/// `r` with `head` put before the tokens it holds.
pub open spec fn after_tokens(head: Seq<TokenView>, r: Result<Seq<TokenView>, LexError>) -> Result<
    Seq<TokenView>,
    LexError,
> {
    match r {
        Ok(ts) => Ok(head + ts),
        Err(e) => Err(e),
    }
}

/// The tokens of `text[i..]`, or the first error met.
pub open spec fn tokens_from(text: Seq<char>, i: int) -> Result<Seq<TokenView>, LexError>
    decreases text.len() - i,
    via tokens_from_decreases
{
    if i < 0 || i >= text.len() {
        Ok(Seq::empty())
    } else if whitespace(text[i]) {
        tokens_from(text, i + 1)
    } else {
        match token_at(text, i) {
            Err(e) => Err(e),
            Ok((t, j)) => after_tokens(seq![t], tokens_from(text, j)),
        }
    }
}

#[via_fn]
proof fn tokens_from_decreases(text: Seq<char>, i: int) {
    if 0 <= i < text.len() && !whitespace(text[i]) {
        token_at_advances(text, i);
    }
}

/// The tokens of a text, or the first error met.
pub open spec fn tokenize_spec(text: Seq<char>) -> Result<Seq<TokenView>, LexError> {
    tokens_from(text, 0)
}

/// A string literal ends after its start and within the text.
pub proof fn string_at_advances(text: Seq<char>, open: int, i: int)
    requires
        0 <= i <= text.len(),
    ensures
        string_at(text, open, i) is Ok ==> i < string_at(text, open, i)->Ok_0.1 <= text.len(),
    decreases text.len() - i,
{
    if i < text.len() && text[i] != '"' {
        if text[i] == '\\' {
            match escape_at(text, i) {
                None => {},
                Some((c, j)) => {
                    string_at_advances(text, open, j);
                },
            }
        } else {
            string_at_advances(text, open, i + 1);
        }
    }
}

/// A run of number characters ends within the text, holds number characters
/// only, and is followed by none.
pub proof fn number_end_is_maximal(text: Seq<char>, i: int)
    requires
        0 <= i <= text.len(),
    ensures
        i <= number_end(text, i) <= text.len(),
        forall|k: int| i <= k < number_end(text, i) ==> number_char(#[trigger] text[k]),
        number_end(text, i) < text.len() ==> !number_char(text[number_end(text, i)]),
    decreases text.len() - i,
{
    if i < text.len() && number_char(text[i]) {
        number_end_is_maximal(text, i + 1);
    }
}

/// A token ends after its start and within the text.
pub proof fn token_at_advances(text: Seq<char>, i: int)
    requires
        0 <= i < text.len(),
    ensures
        token_at(text, i) is Ok ==> i < token_at(text, i)->Ok_0.1 <= text.len(),
{
    let c = text[i];
    if c == '"' {
        string_at_advances(text, i, i + 1);
    } else if digit(c) || c == '-' {
        number_end_is_maximal(text, i);
    }
}

/// The escape sequence that starts with the backslash at `text[i]`.
fn scan_escape(text: &Vec<char>, i: usize) -> (r: Option<(char, usize)>)
    requires
        i < text.len(),
    ensures
        match escape_at(text@, i as int) {
            Some((c, j)) => r == Some((c, j as usize)) && i < j <= text.len(),
            None => r is None,
        },
{
    if text.len() - i < 2 {
        return None;
    }
    let c = text[i + 1];
    if c == '"' || c == '\\' || c == '/' {
        Some((c, i + 2))
    } else if c == 'b' {
        Some(('\u{8}', i + 2))
    } else if c == 'f' {
        Some(('\u{c}', i + 2))
    } else if c == 'n' {
        Some(('\n', i + 2))
    } else if c == 'r' {
        Some(('\r', i + 2))
    } else if c == 't' {
        Some(('\t', i + 2))
    } else if c == 'u' {
        if text.len() - i < 6 {
            return None;
        }
        let hi = match scan_hex4(text, i + 2) {
            Some(n) => n,
            None => { return None; },
        };
        if 0xD800 <= hi && hi <= 0xDBFF {
            if text.len() - i < 12 {
                assert(hex4(text@, i + 8) is None);
                return None;
            }
            if text[i + 6] != '\\' || text[i + 7] != 'u' {
                return None;
            }
            let lo = match scan_hex4(text, i + 8) {
                Some(n) => n,
                None => { return None; },
            };
            if 0xDC00 <= lo && lo <= 0xDFFF {
                let n: u32 = 0x10000 + (hi - 0xD800) * 0x400 + (lo - 0xDC00);
                match char::from_u32(n) {
                    Some(ch) => Some((ch, i + 12)),
                    None => None,
                }
            } else {
                None
            }
        } else {
            match char::from_u32(hi) {
                Some(ch) => Some((ch, i + 6)),
                None => None,
            }
        }
    } else {
        None
    }
}

/// The value of the four hexadecimal digits at `text[i..i + 4]`.
fn scan_hex4(text: &Vec<char>, i: usize) -> (r: Option<u32>)
    requires
        i + 4 <= text.len(),
    ensures
        match hex4(text@, i as int) {
            Some(n) => r == Some(n as u32) && 0 <= n <= 0xFFFF,
            None => r is None,
        },
{
    let a = match hex_digit_value(text[i]) {
        Some(n) => n,
        None => { return None; },
    };
    let b = match hex_digit_value(text[i + 1]) {
        Some(n) => n,
        None => { return None; },
    };
    let c = match hex_digit_value(text[i + 2]) {
        Some(n) => n,
        None => { return None; },
    };
    let d = match hex_digit_value(text[i + 3]) {
        Some(n) => n,
        None => { return None; },
    };
    Some(((a * 16 + b) * 16 + c) * 16 + d)
}

/// The string literal whose opening quote is `text[open]`.
fn scan_string(text: &Vec<char>, open: usize) -> (r: Result<(String, usize), LexError>)
    requires
        open < text.len(),
    ensures
        match string_at(text@, open as int, open + 1) {
            Ok((s, j)) => r is Ok && r->Ok_0.0@ == s && r->Ok_0.1 == j && open < j <= text.len(),
            Err(e) => r == Err::<(String, usize), LexError>(e),
        },
{
    let mut out = String::new();
    let mut i: usize = open + 1;
    loop
        invariant
            open < i <= text.len(),
            string_at(text@, open as int, open + 1) == after_chars(
                out@,
                string_at(text@, open as int, i as int),
            ),
        decreases text.len() - i,
    {
        proof {
            string_at_advances(text@, open as int, i as int);
        }
        if i >= text.len() {
            return Err(LexError::UnexpectedCharacter { ch: '"', position: open });
        }
        let c = text[i];
        if c == '"' {
            assert(out@ + Seq::<char>::empty() == out@);
            return Ok((out, i + 1));
        }
        if c == '\\' {
            match scan_escape(text, i) {
                None => {
                    return Err(LexError::UnexpectedCharacter { ch: '\\', position: i });
                },
                Some((d, j)) => {
                    proof {
                        let rest = string_at(text@, open as int, j as int);
                        if rest is Ok {
                            assert(out@ + (seq![d] + rest->Ok_0.0) == out@.push(d)
                                + rest->Ok_0.0);
                        }
                    }
                    out.push(d);
                    i = j;
                },
            }
        } else {
            proof {
                let rest = string_at(text@, open as int, i + 1);
                if rest is Ok {
                    assert(out@ + (seq![c] + rest->Ok_0.0) == out@.push(c) + rest->Ok_0.0);
                }
            }
            out.push(c);
            i += 1;
        }
    }
}

/// The end of the run of number characters that starts at `start`.
fn scan_number_end(text: &Vec<char>, start: usize) -> (j: usize)
    requires
        start <= text.len(),
    ensures
        j == number_end(text@, start as int),
        start <= j <= text.len(),
{
    let mut j: usize = start;
    while j < text.len() && is_number_char(text[j])
        invariant
            start <= j <= text.len(),
            number_end(text@, start as int) == number_end(text@, j as int),
        decreases text.len() - j,
    {
        j += 1;
    }
    j
}

/// Whether the four characters `a`, `b`, `c`, `d` stand at `text[i..]`.
fn has_word4(text: &Vec<char>, i: usize, a: char, b: char, c: char, d: char) -> (r: bool)
    requires
        i <= text.len(),
    ensures
        r == word_at(text@, i as int, seq![a, b, c, d]),
{
    if text.len() - i < 4 {
        return false;
    }
    let r = text[i] == a && text[i + 1] == b && text[i + 2] == c && text[i + 3] == d;
    proof {
        let w = text@.subrange(i as int, i + 4);
        if r {
            assert(w =~= seq![a, b, c, d]);
        } else {
            assert(w[0] == text@[i as int]);
            assert(w[1] == text@[i + 1]);
            assert(w[2] == text@[i + 2]);
            assert(w[3] == text@[i + 3]);
        }
    }
    r
}

/// Whether `false` stands at `text[i..]`.
fn has_false(text: &Vec<char>, i: usize) -> (r: bool)
    requires
        i <= text.len(),
    ensures
        r == word_at(text@, i as int, seq!['f', 'a', 'l', 's', 'e']),
{
    if text.len() - i < 5 {
        return false;
    }
    let r = text[i] == 'f' && text[i + 1] == 'a' && text[i + 2] == 'l' && text[i + 3] == 's'
        && text[i + 4] == 'e';
    proof {
        let w = text@.subrange(i as int, i + 5);
        if r {
            assert(w =~= seq!['f', 'a', 'l', 's', 'e']);
        } else {
            assert(w[0] == text@[i as int]);
            assert(w[1] == text@[i + 1]);
            assert(w[2] == text@[i + 2]);
            assert(w[3] == text@[i + 3]);
            assert(w[4] == text@[i + 4]);
        }
    }
    r
}

/// The token that starts at `text[i]`.
fn scan_token(text: &Vec<char>, i: usize) -> (r: Result<(Token, usize), LexError>)
    requires
        i < text.len(),
    ensures
        match token_at(text@, i as int) {
            Ok((t, j)) => r is Ok && r->Ok_0.0@ == t && r->Ok_0.1 == j && i < j <= text.len(),
            Err(e) => r == Err::<(Token, usize), LexError>(e),
        },
{
    proof {
        token_at_advances(text@, i as int);
    }
    let c = text[i];
    if c == '{' {
        Ok((Token::CurlyOpen, i + 1))
    } else if c == '}' {
        Ok((Token::CurlyClose, i + 1))
    } else if c == '[' {
        Ok((Token::BracketOpen, i + 1))
    } else if c == ']' {
        Ok((Token::BracketClose, i + 1))
    } else if c == ':' {
        Ok((Token::Colon, i + 1))
    } else if c == ',' {
        Ok((Token::Comma, i + 1))
    } else if c == '"' {
        match scan_string(text, i) {
            Ok((s, j)) => Ok((Token::String(s), j)),
            Err(e) => Err(e),
        }
    } else if is_digit(c) || c == '-' {
        let j = scan_number_end(text, i);
        if is_number_literal(text, i, j) {
            Ok((Token::Number(Number::from_chars(text, i, j)), j))
        } else {
            Err(LexError::InvalidNumberLiteral { position: i })
        }
    } else if c == 't' {
        if has_word4(text, i, 't', 'r', 'u', 'e') {
            Ok((Token::Boolean(true), i + 4))
        } else {
            Err(LexError::InvalidKeywordLiteral { position: i })
        }
    } else if c == 'f' {
        if has_false(text, i) {
            Ok((Token::Boolean(false), i + 5))
        } else {
            Err(LexError::InvalidKeywordLiteral { position: i })
        }
    } else if c == 'n' {
        if has_word4(text, i, 'n', 'u', 'l', 'l') {
            Ok((Token::Null, i + 4))
        } else {
            Err(LexError::InvalidKeywordLiteral { position: i })
        }
    } else {
        Err(LexError::UnexpectedCharacter { ch: c, position: i })
    }
}

/// Splits a text into its tokens.
///
/// Whitespace between tokens is skipped. The first character that fits no
/// token ends the scan with an error that names its position.
pub fn tokenize(input: &str) -> (r: Result<Vec<Token>, LexError>)
    ensures
        match tokenize_spec(input@) {
            Ok(ts) => r is Ok && token_views(r->Ok_0@) == ts,
            Err(e) => r == Err::<Vec<Token>, LexError>(e),
        },
{
    let text = chars_of(input);
    tokenize_chars(&text)
}

/// Splits a text, given by its characters, into its tokens.
pub fn tokenize_chars(text: &Vec<char>) -> (r: Result<Vec<Token>, LexError>)
    ensures
        match tokenize_spec(text@) {
            Ok(ts) => r is Ok && token_views(r->Ok_0@) == ts,
            Err(e) => r == Err::<Vec<Token>, LexError>(e),
        },
{
    let mut tokens: Vec<Token> = Vec::new();
    let mut i: usize = 0;
    assert(token_views(tokens@) + tokens_from(text@, 0)->Ok_0 == tokens_from(text@, 0)->Ok_0);
    while i < text.len()
        invariant
            i <= text.len(),
            tokenize_spec(text@) == after_tokens(
                token_views(tokens@),
                tokens_from(text@, i as int),
            ),
        decreases text.len() - i,
    {
        if is_whitespace(text[i]) {
            i += 1;
        } else {
            match scan_token(text, i) {
                Err(e) => {
                    return Err(e);
                },
                Ok((t, j)) => {
                    proof {
                        token_views_push(tokens@, t);
                        let rest = tokens_from(text@, j as int);
                        if rest is Ok {
                            assert(token_views(tokens@) + (seq![t@] + rest->Ok_0) == token_views(
                                tokens@,
                            ).push(t@) + rest->Ok_0);
                        }
                    }
                    tokens.push(t);
                    i = j;
                },
            }
        }
    }
    assert(token_views(tokens@) + Seq::<TokenView>::empty() == token_views(tokens@));
    Ok(tokens)
}

} // verus!
