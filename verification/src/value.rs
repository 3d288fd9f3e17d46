//! The tree that a JSON text parses to.

use vstd::prelude::*;
use crate::number::{number_literal, Number};

verus! {

/// A parsed JSON document.
///
/// An object is a list of members in the order in which they were written;
/// a key may occur more than once.
#[derive(Debug, PartialEq)]
pub enum JsonValue {
    Null,
    Boolean(bool),
    Number(Number),
    String(String),
    Array(Vec<JsonValue>),
    Object(Vec<(String, JsonValue)>),
}

/// The mathematical model of a [`JsonValue`].
pub enum JsonView {
    Null,
    Boolean(bool),
    /// A number, as its literal.
    Number(Seq<char>),
    String(Seq<char>),
    Array(Seq<JsonView>),
    Object(Seq<(Seq<char>, JsonView)>),
}

impl View for JsonValue {
    type V = JsonView;

    open spec fn view(&self) -> JsonView
        decreases self,
    {
        match self {
            JsonValue::Null => JsonView::Null,
            JsonValue::Boolean(b) => JsonView::Boolean(*b),
            JsonValue::Number(n) => JsonView::Number(n@),
            JsonValue::String(s) => JsonView::String(s@),
            JsonValue::Array(items) => JsonView::Array(value_views(items@)),
            JsonValue::Object(members) => JsonView::Object(member_views(members@)),
        }
    }
}

/// Every number in the tree is a number literal.
pub open spec fn well_formed(v: JsonView) -> bool
    decreases v,
{
    match v {
        JsonView::Number(n) => number_literal(n),
        JsonView::Array(items) => forall|i: int|
            0 <= i < items.len() ==> well_formed(#[trigger] items[i]),
        JsonView::Object(members) => forall|i: int|
            0 <= i < members.len() ==> well_formed((#[trigger] members[i]).1),
        _ => true,
    }
}

/// The models of a sequence of values, in order.
pub open spec fn value_views(items: Seq<JsonValue>) -> Seq<JsonView>
    decreases items,
{
    Seq::new(
        items.len(),
        |i: int|
            if 0 <= i < items.len() {
                items[i]@
            } else {
                JsonView::Null
            },
    )
}

/// The models of a sequence of object members, in order.
pub open spec fn member_views(members: Seq<(String, JsonValue)>) -> Seq<(Seq<char>, JsonView)>
    decreases members,
{
    Seq::new(
        members.len(),
        |i: int|
            if 0 <= i < members.len() {
                (members[i].0@, members[i].1@)
            } else {
                (Seq::empty(), JsonView::Null)
            },
    )
}

/// Appending a value appends its model.
pub proof fn value_views_push(items: Seq<JsonValue>, v: JsonValue)
    ensures
        value_views(items.push(v)) == value_views(items).push(v@),
{
    assert(value_views(items.push(v)) =~= value_views(items).push(v@));
}

/// Appending a member appends its model.
pub proof fn member_views_push(members: Seq<(String, JsonValue)>, key: String, v: JsonValue)
    ensures
        member_views(members.push((key, v))) == member_views(members).push((key@, v@)),
{
    assert(member_views(members.push((key, v))) =~= member_views(members).push((key@, v@)));
}

/// The model of an array is the array of its items' models.
pub proof fn array_view(items: Vec<JsonValue>)
    ensures
        JsonValue::Array(items)@ == JsonView::Array(value_views(items@)),
        value_views(items@).len() == items@.len(),
{
}

/// The model of an object is the list of its members' models.
pub proof fn object_view(members: Vec<(String, JsonValue)>)
    ensures
        JsonValue::Object(members)@ == JsonView::Object(member_views(members@)),
        member_views(members@).len() == members@.len(),
{
}

} // verus!
