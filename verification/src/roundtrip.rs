//! Writing a tree and reading the text back yields the tree.

use vstd::prelude::*;
use crate::parser::{
    after_element_spec, after_member_spec, elements_spec, key_spec, members_spec,
    parse_json_spec, parse_tokens_spec, parse_value_spec, JsonError, ParseError,
};
use crate::lexer::{
    after_tokens, escape_at, hex4, number_end, string_at, token_at, token_at_advances,
    tokenize_spec, tokens_from, LexError,
};
use crate::number::{number_literal, unsigned_decimal};
use crate::text::{
    control, digit, hex_char, hex_value, number_char, only_digits, whitespace,
};
use crate::token::TokenView;
use crate::value::{well_formed, JsonView};
use crate::writer::{escape, escape_char, join_members, join_values, quote, serialize_spec};

verus! {

/// The elements of `w` stand in `s` from index `i` on.
pub open spec fn stands_at<T>(s: Seq<T>, i: int, w: Seq<T>) -> bool {
    &&& 0 <= i
    &&& i + w.len() <= s.len()
    &&& forall|k: int| 0 <= k < w.len() ==> s[i + k] == #[trigger] w[k]
}

/// Two sequences stand one after the other where their concatenation stands.
pub proof fn stands_at_concat<T>(s: Seq<T>, i: int, a: Seq<T>, b: Seq<T>)
    ensures
        stands_at(s, i, a + b) <==> stands_at(s, i, a) && stands_at(s, i + a.len(), b),
{
    let w = a + b;
    if stands_at(s, i, w) {
        assert forall|k: int| 0 <= k < a.len() implies s[i + k] == #[trigger] a[k] by {
            assert(w[k] == a[k]);
        }
        assert forall|k: int| 0 <= k < b.len() implies s[i + a.len() + k] == #[trigger] b[k] by {
            assert(w[a.len() + k] == b[k]);
        }
    }
    if stands_at(s, i, a) && stands_at(s, i + a.len(), b) {
        assert forall|k: int| 0 <= k < w.len() implies s[i + k] == #[trigger] w[k] by {
            if k < a.len() {
                assert(w[k] == a[k]);
            } else {
                assert(w[k] == b[k - a.len()]);
            }
        }
    }
}

/// The tokens that spell a value.
pub open spec fn value_tokens(v: JsonView) -> Seq<TokenView>
    decreases v,
{
    match v {
        JsonView::Null => seq![TokenView::Null],
        JsonView::Boolean(b) => seq![TokenView::Boolean(b)],
        JsonView::Number(n) => seq![TokenView::Number(n)],
        JsonView::String(s) => seq![TokenView::String(s)],
        JsonView::Array(items) => seq![TokenView::BracketOpen] + items_tokens(items)
            + seq![TokenView::BracketClose],
        JsonView::Object(members) => seq![TokenView::CurlyOpen] + members_tokens(members)
            + seq![TokenView::CurlyClose],
    }
}

/// The tokens that spell `items`, with a comma between each two.
pub open spec fn items_tokens(items: Seq<JsonView>) -> Seq<TokenView>
    decreases items,
{
    if items.len() == 0 {
        Seq::empty()
    } else if items.len() == 1 {
        value_tokens(items[0])
    } else {
        value_tokens(items[0]) + seq![TokenView::Comma] + items_tokens(items.drop_first())
    }
}

/// The tokens that spell `members`, with a comma between each two.
pub open spec fn members_tokens(members: Seq<(Seq<char>, JsonView)>) -> Seq<TokenView>
    decreases members,
{
    if members.len() == 0 {
        Seq::empty()
    } else if members.len() == 1 {
        seq![TokenView::String(members[0].0), TokenView::Colon] + value_tokens(members[0].1)
    } else {
        seq![TokenView::String(members[0].0), TokenView::Colon] + value_tokens(members[0].1)
            + seq![TokenView::Comma] + members_tokens(members.drop_first())
    }
}

/// A token with which a value can start.
pub open spec fn starts_value(t: TokenView) -> bool {
    t is Null || t is Boolean || t is Number || t is String || t is BracketOpen || t is CurlyOpen
}

/// The tokens of a value are not empty and start with a token that starts a value.
pub proof fn value_tokens_start(v: JsonView)
    ensures
        value_tokens(v).len() > 0,
        starts_value(value_tokens(v)[0]),
{
}

/// Parsing the tokens that spell a value yields the value.
pub proof fn parse_value_tokens(tokens: Seq<TokenView>, i: int, v: JsonView)
    requires
        stands_at(tokens, i, value_tokens(v)),
    ensures
        parse_value_spec(tokens, i) == Ok::<(JsonView, int), ParseError>(
            (v, i + value_tokens(v).len()),
        ),
    decreases v,
{
    let vt = value_tokens(v);
    assert(tokens[i + 0] == vt[0]);
    match v {
        JsonView::Array(items) => {
            let inner = items_tokens(items);
            let open = seq![TokenView::BracketOpen];
            let close = seq![TokenView::BracketClose];
            assert(vt == open + inner + close);
            stands_at_concat(tokens, i, open + inner, close);
            stands_at_concat(tokens, i, open, inner);
            assert(close[0] == TokenView::BracketClose);
            if items.len() == 0 {
                assert(tokens[i + 1 + 0] == close[0]);
                assert(items =~= Seq::empty());
            } else {
                value_tokens_start(items[0]);
                assert(inner[0] == value_tokens(items[0])[0]);
                assert(tokens[i + 1 + 0] == inner[0]);
                stands_at_concat(tokens, i + 1, inner, close);
                parse_items_tokens(tokens, i + 1, Seq::empty(), items);
                assert(Seq::<JsonView>::empty() + items =~= items);
            }
        },
        JsonView::Object(members) => {
            let inner = members_tokens(members);
            let open = seq![TokenView::CurlyOpen];
            let close = seq![TokenView::CurlyClose];
            assert(vt == open + inner + close);
            stands_at_concat(tokens, i, open + inner, close);
            stands_at_concat(tokens, i, open, inner);
            assert(close[0] == TokenView::CurlyClose);
            if members.len() == 0 {
                assert(tokens[i + 1 + 0] == close[0]);
                assert(members =~= Seq::empty());
            } else {
                assert(inner[0] == TokenView::String(members[0].0));
                assert(tokens[i + 1 + 0] == inner[0]);
                stands_at_concat(tokens, i + 1, inner, close);
                parse_members_tokens(tokens, i + 1, Seq::empty(), members);
                assert(Seq::<(Seq<char>, JsonView)>::empty() + members =~= members);
            }
        },
        _ => {},
    }
}

/// Parsing the tokens that spell the rest of an array's items yields the array.
proof fn parse_items_tokens(tokens: Seq<TokenView>, j: int, done: Seq<JsonView>, rest: Seq<JsonView>)
    requires
        rest.len() > 0,
        stands_at(tokens, j, items_tokens(rest) + seq![TokenView::BracketClose]),
    ensures
        elements_spec(tokens, j, done) == Ok::<(JsonView, int), ParseError>(
            (JsonView::Array(done + rest), j + items_tokens(rest).len() + 1),
        ),
    decreases rest,
{
    let close = seq![TokenView::BracketClose];
    let comma = seq![TokenView::Comma];
    let first = value_tokens(rest[0]);
    let n = first.len() as int;
    value_tokens_start(rest[0]);
    stands_at_concat(tokens, j, items_tokens(rest), close);
    if rest.len() == 1 {
        parse_value_tokens(tokens, j, rest[0]);
        assert(tokens[j + n + 0] == close[0]);
        assert(done.push(rest[0]) =~= done + rest);
    } else {
        let tail = items_tokens(rest.drop_first());
        assert(items_tokens(rest) == first + comma + tail);
        stands_at_concat(tokens, j, first + comma, tail);
        stands_at_concat(tokens, j, first, comma);
        parse_value_tokens(tokens, j, rest[0]);
        assert(tokens[j + n + 0] == comma[0]);
        stands_at_concat(tokens, j + n + 1, tail, close);
        assert(stands_at(tokens, j + n + 1, tail + close));
        parse_items_tokens(tokens, j + n + 1, done.push(rest[0]), rest.drop_first());
        assert(done.push(rest[0]) + rest.drop_first() =~= done + rest);
    }
}

/// Parsing the tokens that spell the rest of an object's members yields the object.
proof fn parse_members_tokens(
    tokens: Seq<TokenView>,
    j: int,
    done: Seq<(Seq<char>, JsonView)>,
    rest: Seq<(Seq<char>, JsonView)>,
)
    requires
        rest.len() > 0,
        stands_at(tokens, j, members_tokens(rest) + seq![TokenView::CurlyClose]),
    ensures
        members_spec(tokens, j, done) == Ok::<(JsonView, int), ParseError>(
            (JsonView::Object(done + rest), j + members_tokens(rest).len() + 1),
        ),
    decreases rest,
{
    let close = seq![TokenView::CurlyClose];
    let comma = seq![TokenView::Comma];
    let key = seq![TokenView::String(rest[0].0), TokenView::Colon];
    let first = value_tokens(rest[0].1);
    let n = first.len() as int;
    value_tokens_start(rest[0].1);
    stands_at_concat(tokens, j, members_tokens(rest), close);
    if rest.len() == 1 {
        assert(members_tokens(rest) == key + first);
        stands_at_concat(tokens, j, key, first);
        assert(tokens[j + 0] == key[0]);
        assert(tokens[j + 1] == key[1]);
        parse_value_tokens(tokens, j + 2, rest[0].1);
        assert(tokens[j + 2 + n + 0] == close[0]);
        assert(done.push(rest[0]) =~= done + rest);
    } else {
        let tail = members_tokens(rest.drop_first());
        assert(members_tokens(rest) == key + first + comma + tail);
        stands_at_concat(tokens, j, key + first + comma, tail);
        stands_at_concat(tokens, j, key + first, comma);
        stands_at_concat(tokens, j, key, first);
        assert(tokens[j + 0] == key[0]);
        assert(tokens[j + 1] == key[1]);
        parse_value_tokens(tokens, j + 2, rest[0].1);
        assert(tokens[j + 2 + n + 0] == comma[0]);
        stands_at_concat(tokens, j + 2 + n + 1, tail, close);
        assert(stands_at(tokens, j + 2 + n + 1, tail + close));
        parse_members_tokens(tokens, j + 2 + n + 1, done.push(rest[0]), rest.drop_first());
        assert(done.push(rest[0]) + rest.drop_first() =~= done + rest);
    }
}

/// The tokens that spell a value are a document, and the document is the value.
pub proof fn parse_tokens_of_value(v: JsonView)
    ensures
        parse_tokens_spec(value_tokens(v)) == Ok::<JsonView, ParseError>(v),
{
    value_tokens_start(v);
    parse_value_tokens(value_tokens(v), 0, v);
}

/// No number character stands at `text[j]`.
pub open spec fn ends_number_run(text: Seq<char>, j: int) -> bool {
    j >= text.len() || !number_char(text[j])
}

/// A number literal is not empty, starts with a digit or `-`, and holds
/// number characters only.
pub proof fn number_literal_chars(n: Seq<char>)
    requires
        number_literal(n),
    ensures
        n.len() > 0,
        digit(n[0]) || n[0] == '-',
        forall|k: int| 0 <= k < n.len() ==> number_char(#[trigger] n[k]),
{
    let u = if n.len() > 0 && n[0] == '-' {
        n.skip(1)
    } else {
        n
    };
    assert(unsigned_decimal(u));
    assert(u.len() > 0 && digit(u[0]) && forall|k: int|
        0 <= k < u.len() ==> number_char(#[trigger] u[k])) by {
        if u.len() > 0 && only_digits(u) {
        } else {
            let d = choose|d: int|
                0 < d < u.len() - 1 && #[trigger] u[d] == '.' && only_digits(u.take(d))
                    && only_digits(u.skip(d + 1));
            assert(u.take(d)[0] == u[0]);
            assert forall|k: int| 0 <= k < u.len() implies number_char(#[trigger] u[k]) by {
                if k < d {
                    assert(u.take(d)[k] == u[k]);
                } else if k > d {
                    assert(u.skip(d + 1)[k - d - 1] == u[k]);
                }
            }
        }
    }
    if n.len() > 0 && n[0] == '-' {
        assert forall|k: int| 0 <= k < n.len() implies number_char(#[trigger] n[k]) by {
            if k > 0 {
                assert(u[k - 1] == n[k]);
            }
        }
    }
}

/// A run of number characters that no number character follows ends where it ends.
pub proof fn number_end_exact(text: Seq<char>, i: int, j: int)
    requires
        0 <= i <= j <= text.len(),
        forall|k: int| i <= k < j ==> number_char(#[trigger] text[k]),
        ends_number_run(text, j),
    ensures
        number_end(text, i) == j,
    decreases j - i,
{
    if i < j {
        number_end_exact(text, i + 1, j);
    }
}

/// `r` is `after_tokens` of nothing and `r`.
proof fn after_tokens_empty(r: Result<Seq<TokenView>, LexError>)
    ensures
        after_tokens(Seq::empty(), r) == r,
{
    match r {
        Ok(ts) => {
            assert(Seq::<TokenView>::empty() + ts =~= ts);
        },
        Err(_) => {},
    }
}

/// Putting `b` and then `a` before is putting `a + b` before.
proof fn after_tokens_assoc(
    a: Seq<TokenView>,
    b: Seq<TokenView>,
    r: Result<Seq<TokenView>, LexError>,
)
    ensures
        after_tokens(a, after_tokens(b, r)) == after_tokens(a + b, r),
{
    match r {
        Ok(ts) => {
            assert(a + (b + ts) =~= (a + b) + ts);
        },
        Err(_) => {},
    }
}

/// A number literal that no number character follows is lexed as one token.
proof fn lex_number(text: Seq<char>, i: int, n: Seq<char>)
    requires
        number_literal(n),
        stands_at(text, i, n),
        ends_number_run(text, i + n.len()),
    ensures
        0 <= i < text.len(),
        !whitespace(text[i]),
        token_at(text, i) == Ok::<(TokenView, int), LexError>(
            (TokenView::Number(n), i + n.len()),
        ),
{
    number_literal_chars(n);
    let j = i + n.len();
    assert(text[i + 0] == n[0]);
    assert forall|k: int| i <= k < j implies number_char(#[trigger] text[k]) by {
        assert(text[i + (k - i)] == n[k - i]);
    }
    number_end_exact(text, i, j);
    assert(text.subrange(i, j) =~= n) by {
        assert forall|k: int| 0 <= k < n.len() implies text.subrange(i, j)[k] == n[k] by {
            assert(text[i + k] == n[k]);
        }
    }
}

/// The hexadecimal digit for a value has that value.
proof fn hex_char_value(k: int)
    requires
        0 <= k < 16,
    ensures
        hex_value(hex_char(k)) == Some(k),
{
}

/// The escaped form of a character decodes to the character.
proof fn escape_char_decodes(text: Seq<char>, j: int, c: char)
    requires
        stands_at(text, j, escape_char(c)),
    ensures
        escape_char(c).len() > 0,
        escape_char(c) == seq![c] ==> text[j] == c && c != '"' && c != '\\',
        escape_char(c) != seq![c] ==> text[j] == '\\' && escape_at(text, j) == Some(
            (c, j + escape_char(c).len()),
        ),
{
    let e = escape_char(c);
    assert(text[j + 0] == e[0]);
    let n = c as u32;
    if c == '"' || c == '\\' || c == '\u{8}' || c == '\t' || c == '\n' || c == '\u{c}' || c
        == '\r' {
        assert(e.len() == 2);
        assert(text[j + 1] == e[1]);
        assert(e != seq![c]) by {
            assert(seq![c].len() == 1);
        }
    } else if control(c) {
        assert(e.len() == 6);
        assert(text[j + 1] == e[1]);
        assert(text[j + 2] == e[2]);
        assert(text[j + 3] == e[3]);
        assert(text[j + 4] == e[4]);
        assert(text[j + 5] == e[5]);
        let hi = (n / 16) as int;
        let lo = (n % 16) as int;
        hex_char_value(hi);
        hex_char_value(lo);
        assert(hex_value('0') == Some(0int));
        assert(hex4(text, j + 2) == Some(n as int));
        assert((n as int) as char == c);
        assert(e != seq![c]) by {
            assert(seq![c].len() == 1);
        }
    } else {
        assert(e == seq![c]);
    }
}

/// The escaped form of a string, closed by a quote, decodes to the string.
pub proof fn string_at_escaped(text: Seq<char>, open: int, j: int, s: Seq<char>)
    requires
        stands_at(text, j, escape(s) + seq!['"']),
    ensures
        string_at(text, open, j) == Ok::<(Seq<char>, int), LexError>(
            (s, j + escape(s).len() + 1),
        ),
    decreases s.len(),
{
    let close = seq!['"'];
    if s.len() == 0 {
        assert(escape(s) =~= Seq::empty());
        assert(text[j + 0] == (escape(s) + close)[0]);
        assert(s =~= Seq::empty());
    } else {
        let c = s[0];
        let rest = s.drop_first();
        let e = escape_char(c);
        assert(escape(s) + close =~= e + (escape(rest) + close));
        stands_at_concat(text, j, e, escape(rest) + close);
        escape_char_decodes(text, j, c);
        string_at_escaped(text, open, j + e.len(), rest);
        assert(seq![c] + rest =~= s);
        if e == seq![c] {
            assert(e.len() == 1);
        }
    }
}

/// A string literal is lexed as one token.
proof fn lex_string(text: Seq<char>, i: int, s: Seq<char>)
    requires
        stands_at(text, i, quote(s)),
    ensures
        0 <= i < text.len(),
        !whitespace(text[i]),
        token_at(text, i) == Ok::<(TokenView, int), LexError>(
            (TokenView::String(s), i + quote(s).len()),
        ),
{
    let open = seq!['"'];
    assert(quote(s) =~= open + (escape(s) + open));
    stands_at_concat(text, i, open, escape(s) + open);
    assert(text[i + 0] == open[0]);
    string_at_escaped(text, i, i + 1, s);
}

/// A token, once lexed, comes before the tokens of what follows it.
proof fn lex_step(text: Seq<char>, i: int, t: TokenView, j: int)
    requires
        0 <= i < text.len(),
        !whitespace(text[i]),
        token_at(text, i) == Ok::<(TokenView, int), LexError>((t, j)),
    ensures
        tokens_from(text, i) == after_tokens(seq![t], tokens_from(text, j)),
{
}

/// A one-character token is lexed as itself.
proof fn lex_mark(text: Seq<char>, i: int, c: char, t: TokenView)
    requires
        0 <= i < text.len(),
        text[i] == c,
        (c == '[' && t == TokenView::BracketOpen) || (c == ']' && t == TokenView::BracketClose)
            || (c == '{' && t == TokenView::CurlyOpen) || (c == '}' && t
            == TokenView::CurlyClose) || (c == ',' && t == TokenView::Comma) || (c == ':' && t
            == TokenView::Colon),
    ensures
        tokens_from(text, i) == after_tokens(seq![t], tokens_from(text, i + 1)),
        !number_char(c),
{
}

/// A keyword is lexed as its token.
proof fn lex_keyword(text: Seq<char>, i: int, v: JsonView)
    requires
        v is Null || v is Boolean,
        stands_at(text, i, serialize_spec(v)),
    ensures
        tokens_from(text, i) == after_tokens(
            value_tokens(v),
            tokens_from(text, i + serialize_spec(v).len()),
        ),
{
    let w = serialize_spec(v);
    let end = i + w.len();
    assert(text[i + 0] == w[0]);
    assert(text.subrange(i, end) =~= w) by {
        assert forall|k: int| 0 <= k < w.len() implies text.subrange(i, end)[k] == w[k] by {
            assert(text[i + k] == w[k]);
        }
    }
    match v {
        JsonView::Null => {
            lex_step(text, i, TokenView::Null, end);
        },
        JsonView::Boolean(b) => {
            lex_step(text, i, TokenView::Boolean(b), end);
        },
        _ => {},
    }
}

/// The text of an array is lexed as the tokens that spell the array.
proof fn lex_array(text: Seq<char>, i: int, items: Seq<JsonView>)
    requires
        well_formed(JsonView::Array(items)),
        stands_at(text, i, serialize_spec(JsonView::Array(items))),
    ensures
        tokens_from(text, i) == after_tokens(
            value_tokens(JsonView::Array(items)),
            tokens_from(text, i + serialize_spec(JsonView::Array(items)).len()),
        ),
    decreases items, items.len() + 1,
{
    let v = JsonView::Array(items);
    let end = i + serialize_spec(v).len();
    let open = seq!['['];
    let close = seq![']'];
    let inner = join_values(items);
    assert(serialize_spec(v) == open + inner + close);
    stands_at_concat(text, i, open + inner, close);
    stands_at_concat(text, i, open, inner);
    assert(text[i + 0] == open[0]);
    assert(text[i + 1 + inner.len() + 0] == close[0]);
    lex_mark(text, i, '[', TokenView::BracketOpen);
    lex_items(text, i + 1, items);
    lex_mark(text, i + 1 + inner.len(), ']', TokenView::BracketClose);
    let rest = tokens_from(text, end);
    after_tokens_assoc(items_tokens(items), seq![TokenView::BracketClose], rest);
    after_tokens_assoc(
        seq![TokenView::BracketOpen],
        items_tokens(items) + seq![TokenView::BracketClose],
        rest,
    );
    assert(seq![TokenView::BracketOpen] + (items_tokens(items) + seq![TokenView::BracketClose])
        =~= value_tokens(v));
}

/// The text of an object is lexed as the tokens that spell the object.
proof fn lex_object(text: Seq<char>, i: int, members: Seq<(Seq<char>, JsonView)>)
    requires
        well_formed(JsonView::Object(members)),
        stands_at(text, i, serialize_spec(JsonView::Object(members))),
    ensures
        tokens_from(text, i) == after_tokens(
            value_tokens(JsonView::Object(members)),
            tokens_from(text, i + serialize_spec(JsonView::Object(members)).len()),
        ),
    decreases members, members.len() + 1,
{
    let v = JsonView::Object(members);
    let end = i + serialize_spec(v).len();
    let open = seq!['{'];
    let close = seq!['}'];
    let inner = join_members(members);
    assert(serialize_spec(v) == open + inner + close);
    stands_at_concat(text, i, open + inner, close);
    stands_at_concat(text, i, open, inner);
    assert(text[i + 0] == open[0]);
    assert(text[i + 1 + inner.len() + 0] == close[0]);
    lex_mark(text, i, '{', TokenView::CurlyOpen);
    lex_members(text, i + 1, members);
    lex_mark(text, i + 1 + inner.len(), '}', TokenView::CurlyClose);
    let rest = tokens_from(text, end);
    after_tokens_assoc(members_tokens(members), seq![TokenView::CurlyClose], rest);
    after_tokens_assoc(
        seq![TokenView::CurlyOpen],
        members_tokens(members) + seq![TokenView::CurlyClose],
        rest,
    );
    assert(seq![TokenView::CurlyOpen] + (members_tokens(members) + seq![TokenView::CurlyClose])
        =~= value_tokens(v));
}

/// The text of a value is lexed as the tokens that spell the value.
pub proof fn lex_value(text: Seq<char>, i: int, v: JsonView)
    requires
        well_formed(v),
        stands_at(text, i, serialize_spec(v)),
        ends_number_run(text, i + serialize_spec(v).len()),
    ensures
        tokens_from(text, i) == after_tokens(
            value_tokens(v),
            tokens_from(text, i + serialize_spec(v).len()),
        ),
    decreases v, 0nat,
{
    let end = i + serialize_spec(v).len();
    match v {
        JsonView::Null => {
            lex_keyword(text, i, v);
        },
        JsonView::Boolean(_) => {
            lex_keyword(text, i, v);
        },
        JsonView::Number(n) => {
            lex_number(text, i, n);
            lex_step(text, i, TokenView::Number(n), end);
        },
        JsonView::String(s) => {
            lex_string(text, i, s);
            lex_step(text, i, TokenView::String(s), end);
        },
        JsonView::Array(items) => {
            lex_array(text, i, items);
        },
        JsonView::Object(members) => {
            lex_object(text, i, members);
        },
    }
}

/// The joined texts of values are lexed as the tokens that spell them.
proof fn lex_items(text: Seq<char>, j: int, items: Seq<JsonView>)
    requires
        forall|k: int| 0 <= k < items.len() ==> well_formed(#[trigger] items[k]),
        stands_at(text, j, join_values(items)),
        items.len() > 0 ==> ends_number_run(text, j + join_values(items).len()),
    ensures
        tokens_from(text, j) == after_tokens(
            items_tokens(items),
            tokens_from(text, j + join_values(items).len()),
        ),
    decreases items, items.len(),
{
    if items.len() == 0 {
        after_tokens_empty(tokens_from(text, j));
    } else if items.len() == 1 {
        lex_value(text, j, items[0]);
    } else {
        let first = serialize_spec(items[0]);
        let comma = seq![','];
        let tail = items.drop_first();
        let n = first.len() as int;
        assert(join_values(items) == first + comma + join_values(tail));
        stands_at_concat(text, j, first + comma, join_values(tail));
        stands_at_concat(text, j, first, comma);
        assert(text[j + n + 0] == comma[0]);
        lex_value(text, j, items[0]);
        lex_mark(text, j + n, ',', TokenView::Comma);
        assert forall|k: int| 0 <= k < tail.len() implies well_formed(#[trigger] tail[k]) by {
            assert(tail[k] == items[k + 1]);
        }
        lex_items(text, j + n + 1, tail);
        let rest = tokens_from(text, j + join_values(items).len());
        after_tokens_assoc(seq![TokenView::Comma], items_tokens(tail), rest);
        after_tokens_assoc(
            value_tokens(items[0]),
            seq![TokenView::Comma] + items_tokens(tail),
            rest,
        );
        assert(value_tokens(items[0]) + (seq![TokenView::Comma] + items_tokens(tail))
            =~= items_tokens(items));
    }
}

/// The joined texts of members are lexed as the tokens that spell them.
proof fn lex_members(text: Seq<char>, j: int, members: Seq<(Seq<char>, JsonView)>)
    requires
        forall|k: int| 0 <= k < members.len() ==> well_formed((#[trigger] members[k]).1),
        stands_at(text, j, join_members(members)),
        members.len() > 0 ==> ends_number_run(text, j + join_members(members).len()),
    ensures
        tokens_from(text, j) == after_tokens(
            members_tokens(members),
            tokens_from(text, j + join_members(members).len()),
        ),
    decreases members, members.len(),
{
    if members.len() == 0 {
        after_tokens_empty(tokens_from(text, j));
    } else {
        let key = members[0].0;
        let v = members[0].1;
        let q = quote(key);
        let colon = seq![':'];
        let first = serialize_spec(v);
        let n = first.len() as int;
        let head = seq![TokenView::String(key), TokenView::Colon] + value_tokens(v);
        let after_value = j + q.len() + 1 + n;
        if members.len() == 1 {
            assert(join_members(members) == q + colon + first);
        } else {
            assert(join_members(members) == q + colon + first + seq![','] + join_members(
                members.drop_first(),
            ));
            stands_at_concat(
                text,
                j,
                q + colon + first + seq![','],
                join_members(members.drop_first()),
            );
            stands_at_concat(text, j, q + colon + first, seq![',']);
            assert(text[after_value + 0] == seq![','][0]);
        }
        stands_at_concat(text, j, q + colon, first);
        stands_at_concat(text, j, q, colon);
        assert(text[j + q.len() + 0] == colon[0]);
        lex_string(text, j, key);
        lex_step(text, j, TokenView::String(key), j + q.len());
        lex_mark(text, j + q.len(), ':', TokenView::Colon);
        lex_value(text, j + q.len() + 1, v);
        let after_head = tokens_from(text, after_value);
        after_tokens_assoc(seq![TokenView::Colon], value_tokens(v), after_head);
        after_tokens_assoc(
            seq![TokenView::String(key)],
            seq![TokenView::Colon] + value_tokens(v),
            after_head,
        );
        assert(seq![TokenView::String(key)] + (seq![TokenView::Colon] + value_tokens(v))
            =~= head);
        assert(tokens_from(text, j) == after_tokens(head, after_head));
        if members.len() > 1 {
            let tail = members.drop_first();
            lex_mark(text, after_value, ',', TokenView::Comma);
            assert forall|k: int| 0 <= k < tail.len() implies well_formed(
                (#[trigger] tail[k]).1,
            ) by {
                assert(tail[k] == members[k + 1]);
            }
            lex_members(text, after_value + 1, tail);
            let rest = tokens_from(text, j + join_members(members).len());
            after_tokens_assoc(seq![TokenView::Comma], members_tokens(tail), rest);
            after_tokens_assoc(head, seq![TokenView::Comma] + members_tokens(tail), rest);
            assert(head + (seq![TokenView::Comma] + members_tokens(tail)) =~= members_tokens(
                members,
            ));
        }
    }
}

/// The text of a value is lexed as the tokens that spell the value.
pub proof fn tokenize_serialized(v: JsonView)
    requires
        well_formed(v),
    ensures
        tokenize_spec(serialize_spec(v)) == Ok::<Seq<TokenView>, LexError>(value_tokens(v)),
{
    let text = serialize_spec(v);
    lex_value(text, 0, v);
    assert(value_tokens(v) + Seq::<TokenView>::empty() =~= value_tokens(v));
}

/// Reading back the text of a value yields the value.
pub proof fn parse_serialized(v: JsonView)
    requires
        well_formed(v),
    ensures
        parse_json_spec(serialize_spec(v)) == Ok::<JsonView, JsonError>(v),
{
    tokenize_serialized(v);
    parse_tokens_of_value(v);
}

/// Every number token holds a number literal.
pub open spec fn tokens_well_formed(tokens: Seq<TokenView>) -> bool {
    forall|i: int|
        0 <= i < tokens.len() ==> ((#[trigger] tokens[i]) is Number ==> number_literal(
            tokens[i]->Number_0,
        ))
}

/// The lexer yields number tokens that hold number literals.
pub proof fn lexed_well_formed(text: Seq<char>, i: int)
    requires
        0 <= i,
    ensures
        tokens_from(text, i) is Ok ==> tokens_well_formed(tokens_from(text, i)->Ok_0),
    decreases text.len() - i,
{
    if i < text.len() {
        if whitespace(text[i]) {
            lexed_well_formed(text, i + 1);
        } else {
            match token_at(text, i) {
                Err(_) => {},
                Ok((t, j)) => {
                    token_at_advances(text, i);
                    lexed_well_formed(text, j);
                    match tokens_from(text, j) {
                        Err(_) => {},
                        Ok(rest) => {
                            let all = seq![t] + rest;
                            assert forall|k: int|
                                0 <= k < all.len() && (#[trigger] all[k]) is Number implies number_literal(
                                all[k]->Number_0,
                            ) by {
                                if k > 0 {
                                    assert(all[k] == rest[k - 1]);
                                }
                            }
                        },
                    }
                },
            }
        }
    }
}

/// The parser yields well-formed values from well-formed tokens.
pub proof fn parsed_well_formed(tokens: Seq<TokenView>, i: int)
    requires
        tokens_well_formed(tokens),
    ensures
        parse_value_spec(tokens, i) is Ok ==> well_formed(parse_value_spec(tokens, i)->Ok_0.0),
    decreases tokens.len() - i, 1int,
{
    if 0 <= i < tokens.len() {
        match tokens[i] {
            TokenView::BracketOpen => {
                if i + 1 < tokens.len() && !(tokens[i + 1] is BracketClose) {
                    elements_well_formed(tokens, i + 1, Seq::empty());
                }
            },
            TokenView::CurlyOpen => {
                if i + 1 < tokens.len() && !(tokens[i + 1] is CurlyClose) {
                    members_well_formed(tokens, i + 1, Seq::empty());
                }
            },
            _ => {},
        }
    }
}

proof fn elements_well_formed(tokens: Seq<TokenView>, i: int, items: Seq<JsonView>)
    requires
        tokens_well_formed(tokens),
        forall|k: int| 0 <= k < items.len() ==> well_formed(#[trigger] items[k]),
    ensures
        elements_spec(tokens, i, items) is Ok ==> well_formed(
            elements_spec(tokens, i, items)->Ok_0.0,
        ),
    decreases tokens.len() - i, 2int,
{
    parsed_well_formed(tokens, i);
    match parse_value_spec(tokens, i) {
        Err(_) => {},
        Ok((v, j)) => {
            if i < j <= tokens.len() {
                after_element_well_formed(tokens, j, items.push(v));
            }
        },
    }
}

proof fn after_element_well_formed(tokens: Seq<TokenView>, j: int, items: Seq<JsonView>)
    requires
        tokens_well_formed(tokens),
        forall|k: int| 0 <= k < items.len() ==> well_formed(#[trigger] items[k]),
    ensures
        after_element_spec(tokens, j, items) is Ok ==> well_formed(
            after_element_spec(tokens, j, items)->Ok_0.0,
        ),
    decreases tokens.len() - j, 3int,
{
    if 0 <= j < tokens.len() && tokens[j] is Comma {
        elements_well_formed(tokens, j + 1, items);
    }
}

proof fn members_well_formed(
    tokens: Seq<TokenView>,
    i: int,
    members: Seq<(Seq<char>, JsonView)>,
)
    requires
        tokens_well_formed(tokens),
        forall|k: int| 0 <= k < members.len() ==> well_formed((#[trigger] members[k]).1),
    ensures
        members_spec(tokens, i, members) is Ok ==> well_formed(
            members_spec(tokens, i, members)->Ok_0.0,
        ),
    decreases tokens.len() - i, 2int,
{
    match key_spec(tokens, i) {
        Err(_) => {},
        Ok(key) => {
            parsed_well_formed(tokens, i + 2);
            match parse_value_spec(tokens, i + 2) {
                Err(_) => {},
                Ok((v, j)) => {
                    if i + 2 < j <= tokens.len() {
                        after_member_well_formed(tokens, j, members.push((key, v)));
                    }
                },
            }
        },
    }
}

proof fn after_member_well_formed(
    tokens: Seq<TokenView>,
    j: int,
    members: Seq<(Seq<char>, JsonView)>,
)
    requires
        tokens_well_formed(tokens),
        forall|k: int| 0 <= k < members.len() ==> well_formed((#[trigger] members[k]).1),
    ensures
        after_member_spec(tokens, j, members) is Ok ==> well_formed(
            after_member_spec(tokens, j, members)->Ok_0.0,
        ),
    decreases tokens.len() - j, 3int,
{
    if 0 <= j < tokens.len() && tokens[j] is Comma {
        members_well_formed(tokens, j + 1, members);
    }
}

/// A document that was read from a text is well-formed.
pub proof fn parse_json_well_formed(text: Seq<char>)
    ensures
        parse_json_spec(text) is Ok ==> well_formed(parse_json_spec(text)->Ok_0),
{
    lexed_well_formed(text, 0);
    if tokenize_spec(text) is Ok {
        parsed_well_formed(tokenize_spec(text)->Ok_0, 0);
    }
}

/// Round trip: where a text is a document, writing the document and reading
/// the written text back yields the same document.
pub proof fn round_trip(text: Seq<char>)
    ensures
        parse_json_spec(text) is Ok ==> parse_json_spec(
            serialize_spec(parse_json_spec(text)->Ok_0),
        ) == parse_json_spec(text),
{
    parse_json_well_formed(text);
    if parse_json_spec(text) is Ok {
        parse_serialized(parse_json_spec(text)->Ok_0);
    }
}

} // verus!
