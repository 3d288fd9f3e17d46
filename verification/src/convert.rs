//! Typed conversions: from a tree node to a Rust value.

use vstd::prelude::*;
use crate::number::Number;
use crate::text::{chars_of, text_eq};
use crate::value::{array_view, member_views, object_view, value_views, JsonValue, JsonView};

verus! {

/// The six kinds of JSON value.
#[derive(Debug, Clone, Copy, PartialEq, Eq)]
pub enum JsonKind {
    Null,
    Boolean,
    Number,
    String,
    Array,
    Object,
}

/// The name of a kind, in lower case.
pub open spec fn kind_name(kind: JsonKind) -> Seq<char> {
    match kind {
        JsonKind::Null => "null"@,
        JsonKind::Boolean => "boolean"@,
        JsonKind::Number => "number"@,
        JsonKind::String => "string"@,
        JsonKind::Array => "array"@,
        JsonKind::Object => "object"@,
    }
}

impl JsonKind {
    /// The name of the kind, in lower case.
    pub fn name(&self) -> (name: &'static str)
        ensures
            name@ == kind_name(*self),
    {
        match self {
            JsonKind::Null => "null",
            JsonKind::Boolean => "boolean",
            JsonKind::Number => "number",
            JsonKind::String => "string",
            JsonKind::Array => "array",
            JsonKind::Object => "object",
        }
    }
}

/// The kind of a value.
pub open spec fn kind_of(v: JsonView) -> JsonKind {
    match v {
        JsonView::Null => JsonKind::Null,
        JsonView::Boolean(_) => JsonKind::Boolean,
        JsonView::Number(_) => JsonKind::Number,
        JsonView::String(_) => JsonKind::String,
        JsonView::Array(_) => JsonKind::Array,
        JsonView::Object(_) => JsonKind::Object,
    }
}

/// Why a value could not be converted.
#[derive(Debug, PartialEq)]
pub enum ConversionError {
    /// A value of one kind stands where another kind is due.
    TypeMismatch { expected: JsonKind, found: JsonKind },
    /// An object has no member with the key `name`.
    MissingField { name: String },
    /// The array item at `index` could not be converted, for the reason `inner`.
    ArrayElementError { index: usize, inner: Box<ConversionError> },
}

/// The mathematical model of a [`ConversionError`].
pub enum ConversionErrorView {
    TypeMismatch { expected: JsonKind, found: JsonKind },
    MissingField { name: Seq<char> },
    ArrayElementError { index: usize, inner: Box<ConversionErrorView> },
}

impl View for ConversionError {
    type V = ConversionErrorView;

    open spec fn view(&self) -> ConversionErrorView
        decreases self,
    {
        match self {
            ConversionError::TypeMismatch { expected, found } => ConversionErrorView::TypeMismatch {
                expected: *expected,
                found: *found,
            },
            ConversionError::MissingField { name } => ConversionErrorView::MissingField {
                name: name@,
            },
            ConversionError::ArrayElementError { index, inner } => {
                ConversionErrorView::ArrayElementError { index: *index, inner: Box::new((**inner)@) }
            },
        }
    }
}

/// The value of the first member of `members` whose key is `key`.
pub open spec fn lookup(members: Seq<(Seq<char>, JsonView)>, key: Seq<char>) -> Option<JsonView>
    decreases members.len(),
{
    if members.len() == 0 {
        None
    } else if members[0].0 == key {
        Some(members[0].1)
    } else {
        lookup(members.drop_first(), key)
    }
}

/// The member `name` of the object `v`: the value of the first member with
/// that key. A missing key is `MissingField`; a `v` that is no object is
/// `TypeMismatch`.
pub open spec fn field_spec(v: JsonView, name: Seq<char>) -> Result<JsonView, ConversionErrorView> {
    match v {
        JsonView::Object(members) => match lookup(members, name) {
            Some(found) => Ok(found),
            None => Err(ConversionErrorView::MissingField { name }),
        },
        _ => Err(
            ConversionErrorView::TypeMismatch { expected: JsonKind::Object, found: kind_of(v) },
        ),
    }
}

/// `lookup` finds the member at `i` if no earlier member has the key.
pub proof fn lookup_first(members: Seq<(Seq<char>, JsonView)>, key: Seq<char>, i: int)
    requires
        0 <= i <= members.len(),
        forall|k: int| 0 <= k < i ==> (#[trigger] members[k]).0 != key,
    ensures
        i < members.len() && members[i].0 == key ==> lookup(members, key) == Some(members[i].1),
        i == members.len() ==> lookup(members, key) is None,
    decreases members.len(),
{
    if members.len() > 0 && i > 0 {
        let tail = members.drop_first();
        assert(members[0].0 != key);
        assert forall|k: int| 0 <= k < i - 1 implies (#[trigger] tail[k]).0 != key by {
            assert(tail[k] == members[k + 1]);
        }
        lookup_first(tail, key, i - 1);
        if i < members.len() {
            assert(tail[i - 1] == members[i]);
        }
    }
}

impl JsonValue {
    /// The kind of the value.
    pub fn kind(&self) -> (k: JsonKind)
        ensures
            k == kind_of(self@),
    {
        match self {
            JsonValue::Null => JsonKind::Null,
            JsonValue::Boolean(_) => JsonKind::Boolean,
            JsonValue::Number(_) => JsonKind::Number,
            JsonValue::String(_) => JsonKind::String,
            JsonValue::Array(_) => JsonKind::Array,
            JsonValue::Object(_) => JsonKind::Object,
        }
    }

    /// The member `name` of an object: of the members with that key, the first.
    pub fn field(&self, name: &str) -> (r: Result<&JsonValue, ConversionError>)
        ensures
            match field_spec(self@, name@) {
                Ok(v) => r is Ok && r->Ok_0@ == v,
                Err(e) => r is Err && r->Err_0@ == e,
            },
    {
        match self {
            JsonValue::Object(members) => {
                let key = chars_of(name);
                let ghost views = member_views(members@);
                proof {
                    object_view(*members);
                }
                let mut i: usize = 0;
                while i < members.len()
                    invariant
                        i <= members.len(),
                        key@ == name@,
                        views == member_views(members@),
                        self@ == JsonView::Object(views),
                        forall|k: int| 0 <= k < i ==> (#[trigger] views[k]).0 != key@,
                    decreases members.len() - i,
                {
                    if text_eq(members[i].0.as_str(), &key) {
                        proof {
                            lookup_first(views, key@, i as int);
                            assert(views[i as int].1 == members@[i as int].1@);
                        }
                        return Ok(&members[i].1);
                    }
                    assert(views[i as int].0 == members@[i as int].0@);
                    i += 1;
                }
                proof {
                    lookup_first(views, key@, i as int);
                }
                Err(ConversionError::MissingField { name: name.to_owned() })
            },
            _ => Err(
                ConversionError::TypeMismatch { expected: JsonKind::Object, found: self.kind() },
            ),
        }
    }
}

/// A type that a JSON value can be converted to.
///
/// This is the extension point of the engine: a new target type takes one
/// implementation, and neither the lexer nor the parser changes.
pub trait FromJsonValue: Sized {
    /// Whether `r` is what converting `value` yields. An implementation states
    /// here on which values it succeeds, with what, and how it fails on the
    /// others; one that states nothing promises nothing.
    open spec fn converts(value: JsonView, r: Result<Self, ConversionError>) -> bool {
        true
    }

    /// Converts `value`.
    fn from_json_value(value: &JsonValue) -> (r: Result<Self, ConversionError>)
        ensures
            Self::converts(value@, r),
    ;
}

/// `T` converts `value` with success.
pub open spec fn succeeds<T: FromJsonValue>(value: JsonView) -> bool {
    exists|x: T| T::converts(value, Ok(x))
}

/// The failure of a conversion that found a value of the wrong kind.
pub open spec fn mismatch<T>(
    r: Result<T, ConversionError>,
    expected: JsonKind,
    value: JsonView,
) -> bool {
    r is Err && r->Err_0@ == (ConversionErrorView::TypeMismatch {
        expected,
        found: kind_of(value),
    })
}

impl FromJsonValue for String {
    /// A string converts to its text; any other value is a mismatch.
    open spec fn converts(value: JsonView, r: Result<Self, ConversionError>) -> bool {
        match value {
            JsonView::String(s) => r is Ok && r->Ok_0@ == s,
            _ => mismatch(r, JsonKind::String, value),
        }
    }

    fn from_json_value(value: &JsonValue) -> (r: Result<Self, ConversionError>) {
        match value {
            JsonValue::String(s) => Ok(s.clone()),
            _ => Err(
                ConversionError::TypeMismatch { expected: JsonKind::String, found: value.kind() },
            ),
        }
    }
}

impl FromJsonValue for Number {
    /// A number converts to itself; any other value is a mismatch.
    open spec fn converts(value: JsonView, r: Result<Self, ConversionError>) -> bool {
        match value {
            JsonView::Number(n) => r is Ok && r->Ok_0@ == n,
            _ => mismatch(r, JsonKind::Number, value),
        }
    }

    fn from_json_value(value: &JsonValue) -> (r: Result<Self, ConversionError>) {
        match value {
            JsonValue::Number(n) => Ok(n.clone()),
            _ => Err(
                ConversionError::TypeMismatch { expected: JsonKind::Number, found: value.kind() },
            ),
        }
    }
}

impl FromJsonValue for bool {
    /// A boolean converts to itself; any other value is a mismatch.
    open spec fn converts(value: JsonView, r: Result<Self, ConversionError>) -> bool {
        match value {
            JsonView::Boolean(b) => r is Ok && r->Ok_0 == b,
            _ => mismatch(r, JsonKind::Boolean, value),
        }
    }

    fn from_json_value(value: &JsonValue) -> (r: Result<Self, ConversionError>) {
        match value {
            JsonValue::Boolean(b) => Ok(*b),
            _ => Err(
                ConversionError::TypeMismatch { expected: JsonKind::Boolean, found: value.kind() },
            ),
        }
    }
}

impl<T: FromJsonValue> FromJsonValue for Option<T> {
    /// `null` converts to `None`. Any other value converts as `T` converts
    /// it: a success is wrapped in `Some`, a failure is passed on as it is.
    open spec fn converts(value: JsonView, r: Result<Self, ConversionError>) -> bool {
        match value {
            JsonView::Null => r is Ok && r->Ok_0 is None,
            _ => match r {
                Ok(Some(x)) => T::converts(value, Ok(x)),
                Ok(None) => false,
                Err(e) => T::converts(value, Err(e)),
            },
        }
    }

    fn from_json_value(value: &JsonValue) -> (r: Result<Self, ConversionError>) {
        match value {
            JsonValue::Null => Ok(None),
            _ => match T::from_json_value(value) {
                Ok(x) => Ok(Some(x)),
                Err(e) => Err(e),
            },
        }
    }
}

impl<T: FromJsonValue> FromJsonValue for Vec<T> {
    /// An array converts item by item, in order, to a vector of the same
    /// length. The first item that fails ends the conversion with
    /// `ArrayElementError`, which holds the item's index and the item's own
    /// failure. Any value that is no array is a mismatch.
    open spec fn converts(value: JsonView, r: Result<Self, ConversionError>) -> bool {
        match value {
            JsonView::Array(items) => match r {
                Ok(out) => {
                    &&& out@.len() == items.len()
                    &&& forall|k: int|
                        0 <= k < items.len() ==> T::converts(items[k], Ok(#[trigger] out@[k]))
                },
                Err(ConversionError::ArrayElementError { index, inner }) => {
                    &&& index < items.len()
                    &&& T::converts(items[index as int], Err(*inner))
                    &&& forall|k: int| 0 <= k < index ==> succeeds::<T>(#[trigger] items[k])
                },
                Err(_) => false,
            },
            _ => mismatch(r, JsonKind::Array, value),
        }
    }

    fn from_json_value(value: &JsonValue) -> (r: Result<Self, ConversionError>) {
        match value {
            JsonValue::Array(items) => {
                let ghost views = value_views(items@);
                proof {
                    array_view(*items);
                }
                let mut out: Vec<T> = Vec::with_capacity(items.len());
                let mut i: usize = 0;
                while i < items.len()
                    invariant
                        i <= items.len(),
                        out@.len() == i,
                        views == value_views(items@),
                        value@ == JsonView::Array(views),
                        forall|k: int| 0 <= k < i ==> T::converts(views[k], Ok(#[trigger] out@[k])),
                    decreases items.len() - i,
                {
                    match T::from_json_value(&items[i]) {
                        Ok(x) => {
                            out.push(x);
                        },
                        Err(e) => {
                            proof {
                                assert forall|k: int| 0 <= k < i implies succeeds::<T>(
                                    #[trigger] views[k],
                                ) by {
                                    assert(T::converts(views[k], Ok(out@[k])));
                                }
                            }
                            let failure = ConversionError::ArrayElementError {
                                index: i,
                                inner: Box::new(e),
                            };
                            return Err(failure);
                        },
                    }
                    i += 1;
                }
                Ok(out)
            },
            _ => Err(
                ConversionError::TypeMismatch { expected: JsonKind::Array, found: value.kind() },
            ),
        }
    }
}

/// Converts the member `name` of the object `object`.
///
/// A missing key is `MissingField`; the failure of a conversion is passed on
/// as it is.
pub fn field_as<T: FromJsonValue>(object: &JsonValue, name: &str) -> (r: Result<
    T,
    ConversionError,
>)
    ensures
        match field_spec(object@, name@) {
            Ok(v) => T::converts(v, r),
            Err(e) => r is Err && r->Err_0@ == e,
        },
{
    match object.field(name) {
        Ok(v) => T::from_json_value(v),
        Err(e) => Err(e),
    }
}

} // verus!
