//! Values that are written as JSON text and read back from it.

use vstd::prelude::*;
use crate::parser::parse_json_spec;
use crate::writer::serialize_spec;

pub use crate::convert::{ConversionError, FromJsonValue};
pub use crate::parser::{JsonError, Parser};
pub use crate::token::Token;
pub use crate::value::JsonValue;

verus! {

/// Why a text could not be read as a value.
#[derive(Debug, PartialEq)]
pub enum FromJsonError {
    /// The text is no JSON document.
    Syntax(JsonError),
    /// The document does not have the shape of the value.
    Conversion(ConversionError),
}

/// A type whose values are written as JSON text and read back from it.
pub trait Jsonable: Sized {
    /// Whether `text` is the JSON text of `self`. An implementation that
    /// states nothing promises nothing.
    open spec fn written_as(&self, text: Seq<char>) -> bool {
        true
    }

    /// Whether `r` is what reading `text` yields. An implementation that
    /// states nothing promises nothing.
    open spec fn read_as(text: Seq<char>, r: Result<Self, FromJsonError>) -> bool {
        true
    }

    /// The JSON text of the value.
    fn into_json(&self) -> (text: String)
        ensures
            self.written_as(text@),
    ;

    /// The value that a JSON text spells.
    fn from_json(json_string: &str) -> (r: Result<Self, FromJsonError>)
        ensures
            Self::read_as(json_string@, r),
    ;
}

impl Jsonable for JsonValue {
    /// A tree is written as its JSON text without whitespace.
    open spec fn written_as(&self, text: Seq<char>) -> bool {
        text == serialize_spec(self@)
    }

    /// A text is read as the document that it spells; a text that is no
    /// document fails with the reason why it is none.
    open spec fn read_as(text: Seq<char>, r: Result<Self, FromJsonError>) -> bool {
        match parse_json_spec(text) {
            Ok(v) => r is Ok && r->Ok_0@ == v,
            Err(e) => r is Err && r->Err_0 == FromJsonError::Syntax(e),
        }
    }

    fn into_json(&self) -> (text: String) {
        self.serialize()
    }

    fn from_json(json_string: &str) -> (r: Result<Self, FromJsonError>) {
        match Parser::parse_json(json_string) {
            Ok(v) => Ok(v),
            Err(e) => Err(FromJsonError::Syntax(e)),
        }
    }
}

} // verus!
