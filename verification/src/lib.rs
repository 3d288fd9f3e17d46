//! A small HTTP toolkit built around a hand-written JSON engine.
//!
//! The JSON engine has four layers:
//!
//! - [`lexer`] turns a text into [`Token`]s,
//! - [`parser`] turns tokens into a [`JsonValue`] tree,
//! - [`writer`] turns a tree back into a text,
//! - [`convert`] turns tree nodes into Rust values.
//!
//! [`roundtrip`] proves that a tree that is written and read back is the same
//! tree. Around the engine stand the HTTP model ([`request`], [`server`],
//! [`headers`]), a router ([`app`]) and the decisions that reading a request
//! from a connection takes ([`connection`]).
//!
//! Every function is verified against a contract over mathematical models:
//! sequences of characters for text, [`TokenView`] for tokens and
//! [`JsonView`] for trees. No verified function panics, and neither the
//! parser nor the writer needs more stack for a deeply nested document than
//! for a flat one.
//!
//! A number is kept as its decimal literal ([`Number`]), so that nothing is
//! lost between reading and writing.

pub mod text;
pub mod number;
pub mod token;
pub mod lexer;
pub mod value;
pub mod parser;
pub mod writer;
pub mod roundtrip;
pub mod convert;
pub mod jsonable;
pub mod headers;
pub mod request;
pub mod server;
pub mod app;
pub mod connection;

pub use app::{App, Handler, Middleware};
pub use convert::{ConversionError, FromJsonValue, JsonKind};
pub use headers::Headers;
pub use jsonable::{FromJsonError, Jsonable};
pub use lexer::{tokenize, LexError};
pub use number::Number;
pub use parser::{JsonError, Parser};
pub use request::HttpRequest;
pub use server::{HttpResponse, Respondable, StatusCode};
pub use token::{Token, TokenView};
pub use value::{JsonValue, JsonView};
