//! The writer: from a tree to text.

use vstd::prelude::*;
use crate::text::{chars_of, control, hex_char, hex_digit, is_control, push_all};
use crate::value::{array_view, member_views, object_view, value_views, JsonValue, JsonView};

verus! {

/// The text that stands for the character `c` inside a string literal.
///
/// `"` and `\` get a backslash. The control characters, which are those up
/// to `0x1F` and those from `0x7F` to `0x9F`, are written as `\b`, `\t`,
/// `\n`, `\f`, `\r`, or else as `\u00XX`. Every other character stands for
/// itself.
pub open spec fn escape_char(c: char) -> Seq<char> {
    if c == '"' {
        seq!['\\', '"']
    } else if c == '\\' {
        seq!['\\', '\\']
    } else if c == '\u{8}' {
        seq!['\\', 'b']
    } else if c == '\t' {
        seq!['\\', 't']
    } else if c == '\n' {
        seq!['\\', 'n']
    } else if c == '\u{c}' {
        seq!['\\', 'f']
    } else if c == '\r' {
        seq!['\\', 'r']
    } else if control(c) {
        seq!['\\', 'u', '0', '0', hex_char((c as u32 / 16) as int), hex_char((c as u32 % 16) as int)]
    } else {
        seq![c]
    }
}

/// The text that stands for `s` inside a string literal.
pub open spec fn escape(s: Seq<char>) -> Seq<char>
    decreases s.len(),
{
    if s.len() == 0 {
        Seq::empty()
    } else {
        escape_char(s[0]) + escape(s.drop_first())
    }
}

/// The string literal for `s`.
pub open spec fn quote(s: Seq<char>) -> Seq<char> {
    seq!['"'] + escape(s) + seq!['"']
}

/// The JSON text of a value. It holds no whitespace.
pub open spec fn serialize_spec(v: JsonView) -> Seq<char>
    decreases v,
{
    match v {
        JsonView::Null => seq!['n', 'u', 'l', 'l'],
        JsonView::Boolean(b) => if b {
            seq!['t', 'r', 'u', 'e']
        } else {
            seq!['f', 'a', 'l', 's', 'e']
        },
        JsonView::Number(n) => n,
        JsonView::String(s) => quote(s),
        JsonView::Array(items) => seq!['['] + join_values(items) + seq![']'],
        JsonView::Object(members) => seq!['{'] + join_members(members) + seq!['}'],
    }
}

/// The texts of `items`, with a comma between each two.
pub open spec fn join_values(items: Seq<JsonView>) -> Seq<char>
    decreases items,
{
    if items.len() == 0 {
        Seq::empty()
    } else if items.len() == 1 {
        serialize_spec(items[0])
    } else {
        serialize_spec(items[0]) + seq![','] + join_values(items.drop_first())
    }
}

/// The texts of `members`, with a comma between each two. The text of a
/// member is the literal of its key, a colon, and the text of its value.
pub open spec fn join_members(members: Seq<(Seq<char>, JsonView)>) -> Seq<char>
    decreases members,
{
    if members.len() == 0 {
        Seq::empty()
    } else if members.len() == 1 {
        quote(members[0].0) + seq![':'] + serialize_spec(members[0].1)
    } else {
        quote(members[0].0) + seq![':'] + serialize_spec(members[0].1) + seq![','] + join_members(
            members.drop_first(),
        )
    }
}

/// Escaping a string character by character, from the front.
pub proof fn escape_push(s: Seq<char>, c: char)
    ensures
        escape(s.push(c)) == escape(s) + escape_char(c),
    decreases s.len(),
{
    if s.len() == 0 {
        assert(s.push(c).drop_first() =~= Seq::empty());
        assert(escape(s.push(c).drop_first()) =~= Seq::empty());
        assert(escape(s) =~= Seq::empty());
        assert(s.push(c)[0] == c);
        assert(escape(s.push(c)) =~= escape(s) + escape_char(c));
    } else {
        escape_push(s.drop_first(), c);
        assert(s.push(c).drop_first() =~= s.drop_first().push(c));
        assert(escape(s.push(c)) =~= escape(s) + escape_char(c));
    }
}

/// Appends to `out` the text that stands for `c` inside a string literal.
fn write_escaped_char(out: &mut String, c: char)
    ensures
        final(out)@ == old(out)@ + escape_char(c),
{
    let n: u32 = c as u32;
    if c == '"' {
        out.push('\\');
        out.push('"');
    } else if c == '\\' {
        out.push('\\');
        out.push('\\');
    } else if c == '\u{8}' {
        out.push('\\');
        out.push('b');
    } else if c == '\t' {
        out.push('\\');
        out.push('t');
    } else if c == '\n' {
        out.push('\\');
        out.push('n');
    } else if c == '\u{c}' {
        out.push('\\');
        out.push('f');
    } else if c == '\r' {
        out.push('\\');
        out.push('r');
    } else if is_control(c) {
        out.push('\\');
        out.push('u');
        out.push('0');
        out.push('0');
        out.push(hex_digit((n / 16) as u8));
        out.push(hex_digit((n % 16) as u8));
    } else {
        out.push(c);
    }
    assert(out@ =~= old(out)@ + escape_char(c));
}

/// Appends to `out` the string literal for `s`.
fn write_quoted(out: &mut String, s: &str)
    ensures
        final(out)@ == old(out)@ + quote(s@),
{
    let chars = chars_of(s);
    out.push('"');
    let mut i: usize = 0;
    while i < chars.len()
        invariant
            i <= chars.len(),
            chars@ == s@,
            out@ == old(out)@ + seq!['"'] + escape(chars@.take(i as int)),
        decreases chars.len() - i,
    {
        proof {
            escape_push(chars@.take(i as int), chars@[i as int]);
            assert(chars@.take(i as int).push(chars@[i as int]) =~= chars@.take(i + 1));
        }
        write_escaped_char(out, chars[i]);
        i += 1;
        assert(out@ =~= old(out)@ + seq!['"'] + escape(chars@.take(i as int)));
    }
    out.push('"');
    assert(chars@.take(chars@.len() as int) =~= chars@);
    assert(out@ =~= old(out)@ + quote(s@));
}

/// The text that stands for `s` inside a string literal: `"`, `\` and the
/// control characters are escaped.
pub fn escape_json_string(s: &str) -> (r: String)
    ensures
        r@ == escape(s@),
{
    let chars = chars_of(s);
    let mut out = String::new();
    let mut i: usize = 0;
    while i < chars.len()
        invariant
            i <= chars.len(),
            out@ == escape(chars@.take(i as int)),
        decreases chars.len() - i,
    {
        proof {
            escape_push(chars@.take(i as int), chars@[i as int]);
            assert(chars@.take(i as int).push(chars@[i as int]) =~= chars@.take(i + 1));
        }
        write_escaped_char(&mut out, chars[i]);
        i += 1;
    }
    assert(chars@.take(chars@.len() as int) =~= chars@);
    out
}

/// What is left to write of an array whose items before `items[i]` are
/// written: the other items, a comma before each but the first, and the
/// closing bracket.
spec fn rest_of_array(items: Seq<JsonView>, i: int) -> Seq<char>
    decreases items.len() - i,
{
    if i < 0 || i >= items.len() {
        seq![']']
    } else if i == 0 {
        serialize_spec(items[i]) + rest_of_array(items, i + 1)
    } else {
        seq![','] + serialize_spec(items[i]) + rest_of_array(items, i + 1)
    }
}

/// What is left to write of an object whose members before `members[i]` are
/// written: the other members, a comma before each but the first, and the
/// closing brace.
spec fn rest_of_object(members: Seq<(Seq<char>, JsonView)>, i: int) -> Seq<char>
    decreases members.len() - i,
{
    if i < 0 || i >= members.len() {
        seq!['}']
    } else if i == 0 {
        quote(members[i].0) + seq![':'] + serialize_spec(members[i].1) + rest_of_object(
            members,
            i + 1,
        )
    } else {
        seq![','] + quote(members[i].0) + seq![':'] + serialize_spec(members[i].1)
            + rest_of_object(members, i + 1)
    }
}

/// What is left of an array after its first `i` items, for `i` above 0, is
/// a comma and the joined other items, if there are any, and the closing bracket.
proof fn rest_of_array_joins(items: Seq<JsonView>, i: int)
    requires
        0 < i <= items.len(),
    ensures
        rest_of_array(items, i) == if i < items.len() {
            seq![','] + join_values(items.skip(i)) + seq![']']
        } else {
            seq![']']
        },
    decreases items.len() - i,
{
    if i < items.len() {
        let tail = items.skip(i);
        assert(tail[0] == items[i]);
        if i + 1 < items.len() {
            rest_of_array_joins(items, i + 1);
            assert(tail.drop_first() =~= items.skip(i + 1));
            assert(rest_of_array(items, i) =~= seq![','] + join_values(tail) + seq![']']);
        } else {
            assert(rest_of_array(items, i + 1) == seq![']']);
            assert(rest_of_array(items, i) =~= seq![','] + join_values(tail) + seq![']']);
        }
    }
}

/// The text of an array is the opening bracket and what is left of the
/// array after none of its items.
proof fn array_text(items: Seq<JsonView>)
    ensures
        serialize_spec(JsonView::Array(items)) == seq!['['] + rest_of_array(items, 0),
{
    if items.len() == 0 {
        assert(serialize_spec(JsonView::Array(items)) =~= seq!['['] + rest_of_array(items, 0));
    } else {
        rest_of_array_joins(items, 1);
        if items.len() > 1 {
            assert(items.drop_first() =~= items.skip(1));
        }
        assert(serialize_spec(JsonView::Array(items)) =~= seq!['['] + rest_of_array(items, 0));
    }
}

/// What is left of an object after its first `i` members, for `i` above 0,
/// is a comma and the joined other members, if there are any, and the
/// closing brace.
proof fn rest_of_object_joins(members: Seq<(Seq<char>, JsonView)>, i: int)
    requires
        0 < i <= members.len(),
    ensures
        rest_of_object(members, i) == if i < members.len() {
            seq![','] + join_members(members.skip(i)) + seq!['}']
        } else {
            seq!['}']
        },
    decreases members.len() - i,
{
    if i < members.len() {
        let tail = members.skip(i);
        assert(tail[0] == members[i]);
        if i + 1 < members.len() {
            rest_of_object_joins(members, i + 1);
            assert(tail.drop_first() =~= members.skip(i + 1));
            assert(rest_of_object(members, i) =~= seq![','] + join_members(tail) + seq!['}']);
        } else {
            assert(rest_of_object(members, i + 1) == seq!['}']);
            assert(rest_of_object(members, i) =~= seq![','] + join_members(tail) + seq!['}']);
        }
    }
}

/// The text of an object is the opening brace and what is left of the
/// object after none of its members.
proof fn object_text(members: Seq<(Seq<char>, JsonView)>)
    ensures
        serialize_spec(JsonView::Object(members)) == seq!['{'] + rest_of_object(members, 0),
{
    if members.len() == 0 {
        assert(serialize_spec(JsonView::Object(members)) =~= seq!['{'] + rest_of_object(
            members,
            0,
        ));
    } else {
        rest_of_object_joins(members, 1);
        if members.len() > 1 {
            assert(members.drop_first() =~= members.skip(1));
        }
        assert(serialize_spec(JsonView::Object(members)) =~= seq!['{'] + rest_of_object(
            members,
            0,
        ));
    }
}

/// The number of steps that writing a value takes after its first character
/// or, for a leaf, after the whole of it is written.
spec fn steps(v: JsonView) -> nat
    decreases v, 0nat,
{
    match v {
        JsonView::Array(items) => steps_of_items(items, 0),
        JsonView::Object(members) => steps_of_members(members, 0),
        _ => 0,
    }
}

/// The number of steps that writing the items from `items[i]` on and the
/// closing bracket takes.
spec fn steps_of_items(items: Seq<JsonView>, i: int) -> nat
    decreases items, items.len() - i,
{
    if i < 0 || i >= items.len() {
        1
    } else {
        1 + steps(items[i]) + steps_of_items(items, i + 1)
    }
}

/// The number of steps that writing the members from `members[i]` on and
/// the closing brace takes.
spec fn steps_of_members(members: Seq<(Seq<char>, JsonView)>, i: int) -> nat
    decreases members, members.len() - i,
{
    if i < 0 || i >= members.len() {
        1
    } else {
        1 + steps(members[i].1) + steps_of_members(members, i + 1)
    }
}

/// A container of which a part is written.
enum Open<'a> {
    /// An array and the index of its next item.
    Items(&'a Vec<JsonValue>, usize),
    /// An object and the index of its next member.
    Members(&'a Vec<(String, JsonValue)>, usize),
}

impl<'a> Open<'a> {
    /// What is left to write of the container.
    spec fn rest(self) -> Seq<char> {
        match self {
            Open::Items(items, i) => rest_of_array(value_views(items@), i as int),
            Open::Members(members, i) => rest_of_object(member_views(members@), i as int),
        }
    }

    /// The number of steps that writing the rest of the container takes.
    spec fn steps(self) -> nat {
        match self {
            Open::Items(items, i) => steps_of_items(value_views(items@), i as int),
            Open::Members(members, i) => steps_of_members(member_views(members@), i as int),
        }
    }
}

/// What is left to write of the containers `open`, innermost last.
spec fn rest_of_all(open: Seq<Open>) -> Seq<char>
    decreases open.len(),
{
    if open.len() == 0 {
        Seq::empty()
    } else {
        open.last().rest() + rest_of_all(open.drop_last())
    }
}

/// The number of steps that writing the rest of the containers `open` takes.
spec fn steps_of_all(open: Seq<Open>) -> nat
    decreases open.len(),
{
    if open.len() == 0 {
        0
    } else {
        open.last().steps() + steps_of_all(open.drop_last())
    }
}

/// One more open container adds what is left of it, before the rest.
proof fn rest_of_all_push(open: Seq<Open>, top: Open)
    ensures
        rest_of_all(open.push(top)) == top.rest() + rest_of_all(open),
        steps_of_all(open.push(top)) == top.steps() + steps_of_all(open),
{
    assert(open.push(top).drop_last() =~= open);
    assert(open.push(top).last() == top);
}

/// Starts the value `v`: a leaf is written whole, of a container the
/// opening character is written and the container is put on `open`.
fn start<'a>(out: &mut String, v: &'a JsonValue, open: &mut Vec<Open<'a>>)
    ensures
        final(out)@ + rest_of_all(final(open)@) == old(out)@ + serialize_spec(v@) + rest_of_all(
            old(open)@,
        ),
        steps_of_all(final(open)@) == steps(v@) + steps_of_all(old(open)@),
{
    let ghost behind = rest_of_all(open@);
    match v {
        JsonValue::Null => {
            out.push('n');
            out.push('u');
            out.push('l');
            out.push('l');
            assert(out@ + behind =~= old(out)@ + serialize_spec(v@) + behind);
        },
        JsonValue::Boolean(b) => {
            if *b {
                out.push('t');
                out.push('r');
                out.push('u');
                out.push('e');
            } else {
                out.push('f');
                out.push('a');
                out.push('l');
                out.push('s');
                out.push('e');
            }
            assert(out@ + behind =~= old(out)@ + serialize_spec(v@) + behind);
        },
        JsonValue::Number(n) => {
            let chars = chars_of(n.as_str());
            push_all(out, &chars);
        },
        JsonValue::String(s) => {
            write_quoted(out, s.as_str());
        },
        JsonValue::Array(items) => {
            proof {
                array_view(*items);
                array_text(value_views(items@));
                rest_of_all_push(open@, Open::Items(items, 0));
            }
            out.push('[');
            open.push(Open::Items(items, 0));
            assert(out@ + rest_of_all(open@) =~= old(out)@ + serialize_spec(v@) + behind);
        },
        JsonValue::Object(members) => {
            proof {
                object_view(*members);
                object_text(member_views(members@));
                rest_of_all_push(open@, Open::Members(members, 0));
            }
            out.push('{');
            open.push(Open::Members(members, 0));
            assert(out@ + rest_of_all(open@) =~= old(out)@ + serialize_spec(v@) + behind);
        },
    }
}

/// Five texts in a row, grouped in two ways.
proof fn regroup(a: Seq<char>, b: Seq<char>, c: Seq<char>, d: Seq<char>, e: Seq<char>)
    ensures
        (a + b) + c + (d + e) == a + (b + c + d) + e,
{
    assert((a + b) + c + (d + e) =~= a + (b + c + d) + e);
}

/// Writes the next part of an array of which `i` items are written: its
/// next item, after a comma where it is not the first, or else the closing
/// bracket. An array that has more to come goes back on `open`.
fn advance_items<'a>(
    out: &mut String,
    items: &'a Vec<JsonValue>,
    i: usize,
    open: &mut Vec<Open<'a>>,
)
    ensures
        final(out)@ + rest_of_all(final(open)@) == old(out)@ + rest_of_array(
            value_views(items@),
            i as int,
        ) + rest_of_all(old(open)@),
        steps_of_all(final(open)@) + 1 == steps_of_items(value_views(items@), i as int)
            + steps_of_all(old(open)@),
{
    let ghost behind = rest_of_all(open@);
    let ghost views = value_views(items@);
    if i < items.len() {
        let ghost comma: Seq<char> = if i > 0 {
            seq![',']
        } else {
            Seq::empty()
        };
        if i > 0 {
            out.push(',');
        }
        assert(out@ =~= old(out)@ + comma);
        let next = Open::Items(items, i + 1);
        proof {
            rest_of_all_push(open@, next);
        }
        open.push(next);
        start(out, &items[i], open);
        proof {
            let text = serialize_spec(views[i as int]);
            let after = rest_of_array(views, i + 1);
            assert(rest_of_array(views, i as int) =~= comma + text + after);
            regroup(old(out)@, comma, text, after, behind);
            assert((old(out)@ + comma) + text + (after + behind) == old(out)@ + (comma + text
                + after) + behind);
        }
    } else {
        out.push(']');
        assert(out@ + behind =~= old(out)@ + seq![']'] + behind);
    }
}

/// Writes the next part of an object of which `i` members are written: its
/// next member, after a comma where it is not the first, or else the closing
/// brace. An object that has more to come goes back on `open`.
fn advance_members<'a>(
    out: &mut String,
    members: &'a Vec<(String, JsonValue)>,
    i: usize,
    open: &mut Vec<Open<'a>>,
)
    ensures
        final(out)@ + rest_of_all(final(open)@) == old(out)@ + rest_of_object(
            member_views(members@),
            i as int,
        ) + rest_of_all(old(open)@),
        steps_of_all(final(open)@) + 1 == steps_of_members(member_views(members@), i as int)
            + steps_of_all(old(open)@),
{
    let ghost behind = rest_of_all(open@);
    let ghost views = member_views(members@);
    if i < members.len() {
        let ghost comma: Seq<char> = if i > 0 {
            seq![',']
        } else {
            Seq::empty()
        };
        if i > 0 {
            out.push(',');
        }
        write_quoted(out, members[i].0.as_str());
        out.push(':');
        let ghost head = comma + quote(views[i as int].0) + seq![':'];
        assert(out@ =~= old(out)@ + head);
        let next = Open::Members(members, i + 1);
        proof {
            rest_of_all_push(open@, next);
        }
        open.push(next);
        start(out, &members[i].1, open);
        proof {
            let text = serialize_spec(views[i as int].1);
            let after = rest_of_object(views, i + 1);
            assert(rest_of_object(views, i as int) =~= head + text + after);
            regroup(old(out)@, head, text, after, behind);
            assert((old(out)@ + head) + text + (after + behind) == old(out)@ + (head + text
                + after) + behind);
        }
    } else {
        out.push('}');
        assert(out@ + behind =~= old(out)@ + seq!['}'] + behind);
    }
}

/// Appends the JSON text of `v` to `out`.
///
/// Nesting costs heap, not stack: the containers of which a part is written
/// are kept in a list, and no call is made per level.
pub fn write_value(out: &mut String, v: &JsonValue)
    ensures
        final(out)@ == old(out)@ + serialize_spec(v@),
{
    let ghost goal = old(out)@ + serialize_spec(v@);
    let mut open: Vec<Open> = Vec::new();
    assert(rest_of_all(open@) =~= Seq::empty());
    start(out, v, &mut open);
    assert(out@ + rest_of_all(open@) =~= goal);
    while open.len() > 0
        invariant
            out@ + rest_of_all(open@) == goal,
        decreases steps_of_all(open@),
    {
        let ghost before = open@;
        let ghost written = out@;
        let top = open.pop().unwrap();
        proof {
            assert(before =~= open@.push(top));
            rest_of_all_push(open@, top);
        }
        let ghost behind = rest_of_all(open@);
        match top {
            Open::Items(items, i) => advance_items(out, items, i, &mut open),
            Open::Members(members, i) => advance_members(out, members, i, &mut open),
        }
        assert(out@ + rest_of_all(open@) =~= written + (top.rest() + behind));
    }
    assert(out@ + Seq::<char>::empty() =~= out@);
}

impl JsonValue {
    /// The JSON text of the value, without any whitespace.
    pub fn serialize(&self) -> (r: String)
        ensures
            r@ == serialize_spec(self@),
    {
        let mut out = String::new();
        write_value(&mut out, self);
        assert(out@ =~= serialize_spec(self@));
        out
    }
}

} // verus!
