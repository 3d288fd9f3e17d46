//! The parser: from tokens to a tree.

use vstd::prelude::*;
use crate::lexer::{tokenize, tokenize_spec, LexError};
use crate::token::{token_views, Token, TokenView};
use crate::value::{
    array_view, member_views, member_views_push, object_view, value_views, value_views_push,
    JsonValue, JsonView,
};

verus! {

/// Why a sequence of tokens is no JSON document. Positions are indices into
/// the token sequence and name the offending token.
#[derive(Debug, Clone, Copy, PartialEq, Eq)]
pub enum ParseError {
    /// The text holds no token at all.
    EmptyInput,
    /// The tokens end where the grammar asks for more.
    UnexpectedEndOfInput,
    /// A token that starts no value stands where a value is due.
    UnexpectedToken { position: usize },
    /// A token that is no string stands where an object key is due.
    ExpectedStringKey { position: usize },
    /// A token that is no `:` follows an object key.
    ExpectedColon { position: usize },
    /// A token that neither separates nor closes follows an array item or an object member.
    ExpectedCommaOrCloser { position: usize },
    /// Tokens follow the document's one value.
    TrailingTokens { position: usize },
}

/// Why a text is no JSON document.
#[derive(Debug, Clone, Copy, PartialEq, Eq)]
pub enum JsonError {
    Lex(LexError),
    Parse(ParseError),
}

/// The outcome of parsing a value: its model and the index after its last token.
pub type Parsed = Result<(JsonView, int), ParseError>;

/// The value that starts at `tokens[i]`.
pub open spec fn parse_value_spec(tokens: Seq<TokenView>, i: int) -> Parsed
    decreases tokens.len() - i, 1int,
{
    if i < 0 || i >= tokens.len() {
        Err(ParseError::UnexpectedEndOfInput)
    } else {
        match tokens[i] {
            TokenView::Null => Ok((JsonView::Null, i + 1)),
            TokenView::Boolean(b) => Ok((JsonView::Boolean(b), i + 1)),
            TokenView::Number(n) => Ok((JsonView::Number(n), i + 1)),
            TokenView::String(s) => Ok((JsonView::String(s), i + 1)),
            TokenView::BracketOpen => parse_array_spec(tokens, i),
            TokenView::CurlyOpen => parse_object_spec(tokens, i),
            _ => Err(ParseError::UnexpectedToken { position: i as usize }),
        }
    }
}

/// The array whose opening bracket is `tokens[i]`.
pub open spec fn parse_array_spec(tokens: Seq<TokenView>, i: int) -> Parsed
    decreases tokens.len() - i, 0int,
{
    if i < 0 || i + 1 >= tokens.len() {
        Err(ParseError::UnexpectedEndOfInput)
    } else if tokens[i + 1] is BracketClose {
        Ok((JsonView::Array(Seq::empty()), i + 2))
    } else {
        elements_spec(tokens, i + 1, Seq::empty())
    }
}

/// The array whose items so far are `items` and whose next item starts at `tokens[i]`.
pub open spec fn elements_spec(tokens: Seq<TokenView>, i: int, items: Seq<JsonView>) -> Parsed
    decreases tokens.len() - i, 2int,
{
    match parse_value_spec(tokens, i) {
        Err(e) => Err(e),
        Ok((v, j)) => if i < j <= tokens.len() {
            after_element_spec(tokens, j, items.push(v))
        } else {
            Err(ParseError::UnexpectedEndOfInput)
        },
    }
}

/// The array whose items so far are `items`, the last of them ending before `tokens[j]`.
pub open spec fn after_element_spec(tokens: Seq<TokenView>, j: int, items: Seq<JsonView>) -> Parsed
    decreases tokens.len() - j, 3int,
{
    if j < 0 || j >= tokens.len() {
        Err(ParseError::UnexpectedEndOfInput)
    } else if tokens[j] is Comma {
        elements_spec(tokens, j + 1, items)
    } else if tokens[j] is BracketClose {
        Ok((JsonView::Array(items), j + 1))
    } else {
        Err(ParseError::ExpectedCommaOrCloser { position: j as usize })
    }
}

/// The object whose opening brace is `tokens[i]`.
pub open spec fn parse_object_spec(tokens: Seq<TokenView>, i: int) -> Parsed
    decreases tokens.len() - i, 0int,
{
    if i < 0 || i + 1 >= tokens.len() {
        Err(ParseError::UnexpectedEndOfInput)
    } else if tokens[i + 1] is CurlyClose {
        Ok((JsonView::Object(Seq::empty()), i + 2))
    } else {
        members_spec(tokens, i + 1, Seq::empty())
    }
}

/// The key at `tokens[i]`, which a `:` must follow.
pub open spec fn key_spec(tokens: Seq<TokenView>, i: int) -> Result<Seq<char>, ParseError> {
    if i < 0 || i >= tokens.len() {
        Err(ParseError::UnexpectedEndOfInput)
    } else {
        match tokens[i] {
            TokenView::String(key) => if i + 1 >= tokens.len() {
                Err(ParseError::UnexpectedEndOfInput)
            } else if !(tokens[i + 1] is Colon) {
                Err(ParseError::ExpectedColon { position: (i + 1) as usize })
            } else {
                Ok(key)
            },
            _ => Err(ParseError::ExpectedStringKey { position: i as usize }),
        }
    }
}

/// The object whose members so far are `members` and whose next member's key is `tokens[i]`.
pub open spec fn members_spec(
    tokens: Seq<TokenView>,
    i: int,
    members: Seq<(Seq<char>, JsonView)>,
) -> Parsed
    decreases tokens.len() - i, 2int,
{
    match key_spec(tokens, i) {
        Err(e) => Err(e),
        Ok(key) => match parse_value_spec(tokens, i + 2) {
            Err(e) => Err(e),
            Ok((v, j)) => if i + 2 < j <= tokens.len() {
                after_member_spec(tokens, j, members.push((key, v)))
            } else {
                Err(ParseError::UnexpectedEndOfInput)
            },
        },
    }
}

/// The object whose members so far are `members`, the last of them ending before `tokens[j]`.
pub open spec fn after_member_spec(
    tokens: Seq<TokenView>,
    j: int,
    members: Seq<(Seq<char>, JsonView)>,
) -> Parsed
    decreases tokens.len() - j, 3int,
{
    if j < 0 || j >= tokens.len() {
        Err(ParseError::UnexpectedEndOfInput)
    } else if tokens[j] is Comma {
        members_spec(tokens, j + 1, members)
    } else if tokens[j] is CurlyClose {
        Ok((JsonView::Object(members), j + 1))
    } else {
        Err(ParseError::ExpectedCommaOrCloser { position: j as usize })
    }
}

/// The document that `tokens` spell: exactly one value, with no token left over.
pub open spec fn parse_tokens_spec(tokens: Seq<TokenView>) -> Result<JsonView, ParseError> {
    if tokens.len() == 0 {
        Err(ParseError::EmptyInput)
    } else {
        match parse_value_spec(tokens, 0) {
            Err(e) => Err(e),
            Ok((v, j)) => if j < tokens.len() {
                Err(ParseError::TrailingTokens { position: j as usize })
            } else {
                Ok(v)
            },
        }
    }
}

/// The document that `text` spells.
pub open spec fn parse_json_spec(text: Seq<char>) -> Result<JsonView, JsonError> {
    match tokenize_spec(text) {
        Err(e) => Err(JsonError::Lex(e)),
        Ok(tokens) => match parse_tokens_spec(tokens) {
            Err(e) => Err(JsonError::Parse(e)),
            Ok(v) => Ok(v),
        },
    }
}

/// Where the cursor rests after a failure: on the offending token, or at the
/// end of the tokens where they ran out.
pub open spec fn resting_position(e: ParseError, len: int) -> int {
    match e {
        ParseError::EmptyInput => 0,
        ParseError::UnexpectedEndOfInput => len,
        ParseError::UnexpectedToken { position } => position as int,
        ParseError::ExpectedStringKey { position } => position as int,
        ParseError::ExpectedColon { position } => position as int,
        ParseError::ExpectedCommaOrCloser { position } => position as int,
        ParseError::TrailingTokens { position } => position as int,
    }
}

/// A container that waits for its next item while the item is being parsed.
enum Frame {
    Array(Vec<JsonValue>),
    Object(Vec<(String, JsonValue)>, String),
}

/// The model of an open container.
enum FrameView {
    /// An array and the items it has so far.
    Array(Seq<JsonView>),
    /// An object, the members it has so far, and the key of the member being parsed.
    Object(Seq<(Seq<char>, JsonView)>, Seq<char>),
}

impl View for Frame {
    type V = FrameView;

    closed spec fn view(&self) -> FrameView {
        match self {
            Frame::Array(items) => FrameView::Array(value_views(items@)),
            Frame::Object(members, key) => FrameView::Object(member_views(members@), key@),
        }
    }
}

spec fn frame_views(frames: Seq<Frame>) -> Seq<FrameView> {
    frames.map_values(|f: Frame| f@)
}

/// Appending a frame appends its model.
proof fn frame_views_push(frames: Seq<Frame>, f: Frame)
    ensures
        frame_views(frames.push(f)) == frame_views(frames).push(f@),
{
    assert(frame_views(frames.push(f)) =~= frame_views(frames).push(f@));
}

/// What the open container `frame` yields once the item being parsed inside
/// it has come out as `r`.
spec fn close_frame(tokens: Seq<TokenView>, frame: FrameView, r: Parsed) -> Parsed {
    match r {
        Err(e) => Err(e),
        Ok((v, j)) => match frame {
            FrameView::Array(items) => after_element_spec(tokens, j, items.push(v)),
            FrameView::Object(members, key) => after_member_spec(tokens, j, members.push((key, v))),
        },
    }
}

/// What the open containers `frames`, innermost last, yield once the value
/// being parsed inside the innermost has come out as `r`.
spec fn resume(tokens: Seq<TokenView>, frames: Seq<FrameView>, r: Parsed) -> Parsed
    decreases frames.len(),
{
    if frames.len() == 0 {
        r
    } else {
        resume(tokens, frames.drop_last(), close_frame(tokens, frames.last(), r))
    }
}

/// A failure inside the innermost container is the failure of the whole.
proof fn resume_err(tokens: Seq<TokenView>, frames: Seq<FrameView>, e: ParseError)
    ensures
        resume(tokens, frames, Err(e)) == Err::<(JsonView, int), ParseError>(e),
    decreases frames.len(),
{
    if frames.len() > 0 {
        resume_err(tokens, frames.drop_last(), e);
    }
}

/// Closing the innermost container first.
proof fn resume_push(tokens: Seq<TokenView>, frames: Seq<FrameView>, f: FrameView, r: Parsed)
    ensures
        resume(tokens, frames.push(f), r) == resume(tokens, frames, close_frame(tokens, f, r)),
{
    assert(frames.push(f).drop_last() == frames);
    assert(frames.push(f).last() == f);
}

/// One step of the parser.
enum Step {
    /// A value is complete; the cursor stands after it.
    Value(JsonValue, usize),
    /// A container was opened; the cursor stands on its next item.
    Enter(Frame, usize),
    /// The tokens are no document.
    Fail(ParseError),
}

/// A value ends after its start and within the tokens.
pub proof fn parse_value_advances(tokens: Seq<TokenView>, i: int)
    requires
        0 <= i,
    ensures
        parse_value_spec(tokens, i) is Ok ==> i < parse_value_spec(tokens, i)->Ok_0.1
            <= tokens.len(),
    decreases tokens.len() - i, 1int,
{
    if i < tokens.len() {
        match tokens[i] {
            TokenView::BracketOpen => {
                if i + 1 < tokens.len() && !(tokens[i + 1] is BracketClose) {
                    elements_advance(tokens, i + 1, Seq::empty());
                }
            },
            TokenView::CurlyOpen => {
                if i + 1 < tokens.len() && !(tokens[i + 1] is CurlyClose) {
                    members_advance(tokens, i + 1, Seq::empty());
                }
            },
            _ => {},
        }
    }
}

proof fn elements_advance(tokens: Seq<TokenView>, i: int, items: Seq<JsonView>)
    requires
        0 <= i,
    ensures
        elements_spec(tokens, i, items) is Ok ==> i < elements_spec(tokens, i, items)->Ok_0.1
            <= tokens.len(),
    decreases tokens.len() - i, 2int,
{
    parse_value_advances(tokens, i);
    match parse_value_spec(tokens, i) {
        Err(e) => {},
        Ok((v, j)) => {
            if j < tokens.len() && tokens[j] is Comma {
                elements_advance(tokens, j + 1, items.push(v));
            }
        },
    }
}

proof fn members_advance(tokens: Seq<TokenView>, i: int, members: Seq<(Seq<char>, JsonView)>)
    requires
        0 <= i,
    ensures
        members_spec(tokens, i, members) is Ok ==> i < members_spec(tokens, i, members)->Ok_0.1
            <= tokens.len(),
    decreases tokens.len() - i, 2int,
{
    match key_spec(tokens, i) {
        Err(e) => {},
        Ok(key) => {
            parse_value_advances(tokens, i + 2);
            match parse_value_spec(tokens, i + 2) {
                Err(e) => {},
                Ok((v, j)) => {
                    if j < tokens.len() && tokens[j] is Comma {
                        members_advance(tokens, j + 1, members.push((key, v)));
                    }
                },
            }
        },
    }
}

/// A cursor over a sequence of tokens.
///
/// The cursor never moves back and never passes the end of the tokens.
pub struct Parser {
    tokens: Vec<Token>,
    position: usize,
}

impl Parser {
    #[verifier::type_invariant]
    spec fn cursor_in_range(&self) -> bool {
        self.position <= self.tokens.len()
    }

    /// The models of the tokens.
    pub closed spec fn tokens(&self) -> Seq<TokenView> {
        token_views(self.tokens@)
    }

    /// The index of the token that is read next.
    pub closed spec fn position(&self) -> int {
        self.position as int
    }

    /// A parser that stands before the first of `tokens`.
    pub fn new(tokens: Vec<Token>) -> (p: Self)
        ensures
            p.tokens() == token_views(tokens@),
            p.position() == 0,
    {
        Parser { tokens, position: 0 }
    }

    /// The token under the cursor.
    pub fn peek(&self) -> (r: Result<&Token, ParseError>)
        ensures
            0 <= self.position() <= self.tokens().len(),
            self.position() < self.tokens().len() ==> r is Ok && r->Ok_0@ == self.tokens()[self.position()],
            self.position() >= self.tokens().len() ==> r == Err::<&Token, ParseError>(
                ParseError::UnexpectedEndOfInput,
            ),
    {
        proof {
            use_type_invariant(self);
        }
        if self.position >= self.tokens.len() {
            Err(ParseError::UnexpectedEndOfInput)
        } else {
            Ok(&self.tokens[self.position])
        }
    }

    /// The token under the cursor; the cursor moves past it.
    pub fn consume(&mut self) -> (r: Result<Token, ParseError>)
        ensures
            final(self).tokens() == old(self).tokens(),
            0 <= old(self).position() <= final(self).position() <= old(self).tokens().len(),
            old(self).position() < old(self).tokens().len() ==> r is Ok && r->Ok_0@ == old(
                self,
            ).tokens()[old(self).position()] && final(self).position() == old(self).position() + 1,
            old(self).position() >= old(self).tokens().len() ==> r == Err::<Token, ParseError>(
                ParseError::UnexpectedEndOfInput,
            ) && final(self).position() == old(self).position(),
    {
        proof {
            use_type_invariant(&*self);
        }
        if self.position >= self.tokens.len() {
            Err(ParseError::UnexpectedEndOfInput)
        } else {
            let token = self.tokens[self.position].clone();
            self.position += 1;
            Ok(token)
        }
    }

    /// The key at `pos` and the colon after it.
    fn read_key(&self, pos: usize) -> (r: Result<String, ParseError>)
        requires
            pos <= self.tokens().len(),
        ensures
            match key_spec(self.tokens(), pos as int) {
                Ok(key) => r is Ok && r->Ok_0@ == key && pos + 2 <= self.tokens().len(),
                Err(e) => r == Err::<String, ParseError>(e) && pos <= resting_position(
                    e,
                    self.tokens().len() as int,
                ) <= self.tokens().len(),
            },
    {
        if pos >= self.tokens.len() {
            return Err(ParseError::UnexpectedEndOfInput);
        }
        match &self.tokens[pos] {
            Token::String(key) => {
                if self.tokens.len() - pos < 2 {
                    Err(ParseError::UnexpectedEndOfInput)
                } else {
                    match &self.tokens[pos + 1] {
                        Token::Colon => Ok(key.clone()),
                        _ => Err(ParseError::ExpectedColon { position: pos + 1 }),
                    }
                }
            },
            _ => Err(ParseError::ExpectedStringKey { position: pos }),
        }
    }

    /// Starts the value at `pos`: a leaf or an empty container is complete at
    /// once, any other container is opened.
    fn begin(&self, pos: usize) -> (s: Step)
        requires
            pos <= self.tokens().len(),
        ensures
            match s {
                Step::Value(v, j) => parse_value_spec(self.tokens(), pos as int) == Ok::<
                    (JsonView, int),
                    ParseError,
                >((v@, j as int)) && pos < j <= self.tokens().len(),
                Step::Enter(f, j) => parse_value_spec(self.tokens(), pos as int) == close_frame(
                    self.tokens(),
                    f@,
                    parse_value_spec(self.tokens(), j as int),
                ) && pos < j <= self.tokens().len(),
                Step::Fail(e) => parse_value_spec(self.tokens(), pos as int) == Err::<
                    (JsonView, int),
                    ParseError,
                >(e) && pos <= resting_position(e, self.tokens().len() as int)
                    <= self.tokens().len(),
            },
    {
        let len = self.tokens.len();
        if pos >= len {
            return Step::Fail(ParseError::UnexpectedEndOfInput);
        }
        match &self.tokens[pos] {
            Token::Null => Step::Value(JsonValue::Null, pos + 1),
            Token::Boolean(b) => Step::Value(JsonValue::Boolean(*b), pos + 1),
            Token::Number(n) => Step::Value(JsonValue::Number(n.clone()), pos + 1),
            Token::String(s) => Step::Value(JsonValue::String(s.clone()), pos + 1),
            Token::BracketOpen => {
                if len - pos < 2 {
                    return Step::Fail(ParseError::UnexpectedEndOfInput);
                }
                let items: Vec<JsonValue> = Vec::new();
                proof {
                    array_view(items);
                    assert(value_views(items@) =~= Seq::empty());
                    parse_value_advances(self.tokens(), pos + 1);
                }
                match &self.tokens[pos + 1] {
                    Token::BracketClose => Step::Value(JsonValue::Array(items), pos + 2),
                    _ => Step::Enter(Frame::Array(items), pos + 1),
                }
            },
            Token::CurlyOpen => {
                if len - pos < 2 {
                    return Step::Fail(ParseError::UnexpectedEndOfInput);
                }
                let members: Vec<(String, JsonValue)> = Vec::new();
                proof {
                    object_view(members);
                    assert(member_views(members@) =~= Seq::empty());
                    parse_value_advances(self.tokens(), pos + 3);
                }
                match &self.tokens[pos + 1] {
                    Token::CurlyClose => Step::Value(JsonValue::Object(members), pos + 2),
                    _ => match self.read_key(pos + 1) {
                        Err(e) => Step::Fail(e),
                        Ok(key) => Step::Enter(Frame::Object(members, key), pos + 3),
                    },
                }
            },
            _ => Step::Fail(ParseError::UnexpectedToken { position: pos }),
        }
    }

    /// Hands the value `v`, which ends before `pos`, to the innermost open
    /// container `frame`: the container is complete, or waits for its next item.
    fn deliver(&self, frame: Frame, v: JsonValue, pos: usize) -> (s: Step)
        requires
            pos <= self.tokens().len(),
        ensures
            match s {
                Step::Value(w, j) => close_frame(
                    self.tokens(),
                    frame@,
                    Ok((v@, pos as int)),
                ) == Ok::<(JsonView, int), ParseError>((w@, j as int)) && pos < j
                    <= self.tokens().len(),
                Step::Enter(f, j) => close_frame(self.tokens(), frame@, Ok((v@, pos as int)))
                    == close_frame(self.tokens(), f@, parse_value_spec(self.tokens(), j as int))
                    && pos < j <= self.tokens().len(),
                Step::Fail(e) => close_frame(self.tokens(), frame@, Ok((v@, pos as int)))
                    == Err::<(JsonView, int), ParseError>(e) && pos <= resting_position(
                    e,
                    self.tokens().len() as int,
                ) <= self.tokens().len(),
            },
    {
        let len = self.tokens.len();
        match frame {
            Frame::Array(items) => {
                let mut items = items;
                proof {
                    value_views_push(items@, v);
                }
                items.push(v);
                if pos >= len {
                    return Step::Fail(ParseError::UnexpectedEndOfInput);
                }
                proof {
                    array_view(items);
                    parse_value_advances(self.tokens(), pos + 1);
                }
                match &self.tokens[pos] {
                    Token::Comma => Step::Enter(Frame::Array(items), pos + 1),
                    Token::BracketClose => Step::Value(JsonValue::Array(items), pos + 1),
                    _ => Step::Fail(ParseError::ExpectedCommaOrCloser { position: pos }),
                }
            },
            Frame::Object(members, key) => {
                let mut members = members;
                proof {
                    member_views_push(members@, key, v);
                }
                members.push((key, v));
                if pos >= len {
                    return Step::Fail(ParseError::UnexpectedEndOfInput);
                }
                proof {
                    object_view(members);
                    parse_value_advances(self.tokens(), pos + 3);
                }
                match &self.tokens[pos] {
                    Token::Comma => match self.read_key(pos + 1) {
                        Err(e) => Step::Fail(e),
                        Ok(next_key) => Step::Enter(Frame::Object(members, next_key), pos + 3),
                    },
                    Token::CurlyClose => Step::Value(JsonValue::Object(members), pos + 1),
                    _ => Step::Fail(ParseError::ExpectedCommaOrCloser { position: pos }),
                }
            },
        }
    }

    /// Parses the value under the cursor, which stands inside the open
    /// containers `frames`, and then closes them one after the other.
    ///
    /// Nesting costs heap, not stack: the containers that are still open are
    /// kept in `frames`, and no call is made per level.
    fn run(&mut self, open: Vec<Frame>) -> (r: Result<JsonValue, ParseError>)
        ensures
            final(self).tokens() == old(self).tokens(),
            0 <= old(self).position() <= final(self).position() <= old(self).tokens().len(),
            match resume(
                old(self).tokens(),
                frame_views(open@),
                parse_value_spec(old(self).tokens(), old(self).position()),
            ) {
                Ok((v, j)) => r is Ok && r->Ok_0@ == v && final(self).position() == j,
                Err(e) => r == Err::<JsonValue, ParseError>(e) && final(self).position()
                    == resting_position(e, old(self).tokens().len() as int),
            },
    {
        proof {
            use_type_invariant(&*self);
        }
        let ghost tokens = self.tokens();
        let ghost goal = resume(
            tokens,
            frame_views(open@),
            parse_value_spec(tokens, self.position()),
        );
        let len = self.tokens.len();
        let start = self.position;
        let mut frames = open;
        let mut pos: usize = self.position;
        let mut pending: Option<JsonValue> = None;
        loop
            invariant
                tokens == old(self).tokens(),
                start == old(self).position(),
                goal == resume(
                    tokens,
                    frame_views(open@),
                    parse_value_spec(tokens, start as int),
                ),
                self.tokens() == tokens,
                self.tokens@ == old(self).tokens@,
                len == tokens.len(),
                self.position == start,
                start <= pos <= len,
                goal == resume(
                    tokens,
                    frame_views(frames@),
                    match pending {
                        None => parse_value_spec(tokens, pos as int),
                        Some(v) => Ok((v@, pos as int)),
                    },
                ),
            decreases len - pos,
        {
            let step = match pending {
                None => self.begin(pos),
                Some(v) => {
                    let ghost before = frames@;
                    match frames.pop() {
                        None => {
                            assert(frame_views(before) =~= Seq::empty());
                            self.position = pos;
                            return Ok(v);
                        },
                        Some(frame) => {
                            proof {
                                assert(before == frames@.push(frame));
                                frame_views_push(frames@, frame);
                                resume_push(
                                    tokens,
                                    frame_views(frames@),
                                    frame@,
                                    Ok((v@, pos as int)),
                                );
                            }
                            self.deliver(frame, v, pos)
                        },
                    }
                },
            };
            match step {
                Step::Value(v, j) => {
                    pending = Some(v);
                    pos = j;
                },
                Step::Enter(f, j) => {
                    proof {
                        frame_views_push(frames@, f);
                        resume_push(
                            tokens,
                            frame_views(frames@),
                            f@,
                            parse_value_spec(tokens, j as int),
                        );
                    }
                    frames.push(f);
                    pending = None;
                    pos = j;
                },
                Step::Fail(e) => {
                    proof {
                        resume_err(tokens, frame_views(frames@), e);
                    }
                    self.position = Self::resting(e, len);
                    return Err(e);
                },
            }
        }
    }

    /// Parses the value that starts under the cursor.
    ///
    /// A `null`, `true`, `false`, number or string token is a value by
    /// itself; `[` starts an array and `{` an object; any other token is
    /// `UnexpectedToken`. On success the cursor stands after the value's last
    /// token; on failure it rests on the offending token.
    pub fn parse_value(&mut self) -> (r: Result<JsonValue, ParseError>)
        ensures
            final(self).tokens() == old(self).tokens(),
            0 <= old(self).position() <= final(self).position() <= old(self).tokens().len(),
            match parse_value_spec(old(self).tokens(), old(self).position()) {
                Ok((v, j)) => r is Ok && r->Ok_0@ == v && final(self).position() == j,
                Err(e) => r == Err::<JsonValue, ParseError>(e) && final(self).position()
                    == resting_position(e, old(self).tokens().len() as int),
            },
    {
        let open: Vec<Frame> = Vec::new();
        assert(frame_views(open@) =~= Seq::empty());
        self.run(open)
    }

    /// Parses the array whose opening bracket stands under the cursor.
    ///
    /// The token under the cursor is taken for the bracket without a look at it.
    pub fn parse_array(&mut self) -> (r: Result<JsonValue, ParseError>)
        ensures
            final(self).tokens() == old(self).tokens(),
            0 <= old(self).position() <= final(self).position() <= old(self).tokens().len(),
            match parse_array_spec(old(self).tokens(), old(self).position()) {
                Ok((v, j)) => r is Ok && r->Ok_0@ == v && final(self).position() == j,
                Err(e) => r == Err::<JsonValue, ParseError>(e) && final(self).position()
                    == resting_position(e, old(self).tokens().len() as int),
            },
    {
        proof {
            use_type_invariant(&*self);
        }
        let pos = self.position;
        let len = self.tokens.len();
        if len - pos < 2 {
            self.position = len;
            return Err(ParseError::UnexpectedEndOfInput);
        }
        let closes = match &self.tokens[pos + 1] {
            Token::BracketClose => true,
            _ => false,
        };
        let items: Vec<JsonValue> = Vec::new();
        proof {
            array_view(items);
            assert(value_views(items@) =~= Seq::empty());
        }
        if closes {
            self.position = pos + 2;
            Ok(JsonValue::Array(items))
        } else {
            let mut open: Vec<Frame> = Vec::new();
            open.push(Frame::Array(items));
            proof {
                parse_value_advances(self.tokens(), pos + 1);
                assert(frame_views(open@) =~= seq![FrameView::Array(Seq::empty())]);
                resume_push(
                    self.tokens(),
                    Seq::empty(),
                    FrameView::Array(Seq::empty()),
                    parse_value_spec(self.tokens(), pos + 1),
                );
                assert(Seq::<FrameView>::empty().push(FrameView::Array(Seq::empty()))
                    =~= frame_views(open@));
            }
            self.position = pos + 1;
            self.run(open)
        }
    }

    /// Parses the object whose opening brace stands under the cursor.
    ///
    /// The token under the cursor is taken for the brace without a look at it.
    pub fn parse_object(&mut self) -> (r: Result<JsonValue, ParseError>)
        ensures
            final(self).tokens() == old(self).tokens(),
            0 <= old(self).position() <= final(self).position() <= old(self).tokens().len(),
            match parse_object_spec(old(self).tokens(), old(self).position()) {
                Ok((v, j)) => r is Ok && r->Ok_0@ == v && final(self).position() == j,
                Err(e) => r == Err::<JsonValue, ParseError>(e) && final(self).position()
                    == resting_position(e, old(self).tokens().len() as int),
            },
    {
        proof {
            use_type_invariant(&*self);
        }
        let pos = self.position;
        let len = self.tokens.len();
        if len - pos < 2 {
            self.position = len;
            return Err(ParseError::UnexpectedEndOfInput);
        }
        let closes = match &self.tokens[pos + 1] {
            Token::CurlyClose => true,
            _ => false,
        };
        let members: Vec<(String, JsonValue)> = Vec::new();
        proof {
            object_view(members);
            assert(member_views(members@) =~= Seq::empty());
        }
        if closes {
            self.position = pos + 2;
            Ok(JsonValue::Object(members))
        } else {
            match self.read_key(pos + 1) {
                Err(e) => {
                    self.position = Self::resting(e, len);
                    Err(e)
                },
                Ok(key) => {
                    let mut open: Vec<Frame> = Vec::new();
                    proof {
                        parse_value_advances(self.tokens(), pos + 3);
                        resume_push(
                            self.tokens(),
                            Seq::empty(),
                            FrameView::Object(Seq::empty(), key@),
                            parse_value_spec(self.tokens(), pos + 3),
                        );
                        frame_views_push(open@, Frame::Object(members, key));
                        assert(frame_views(open@) =~= Seq::empty());
                    }
                    open.push(Frame::Object(members, key));
                    self.position = pos + 3;
                    self.run(open)
                },
            }
        }
    }

    /// Parses a text that holds exactly one JSON document.
    ///
    /// A text without any token is `EmptyInput`; tokens after the document's
    /// one value are `TrailingTokens`.
    pub fn parse_json(input: &str) -> (r: Result<JsonValue, JsonError>)
        ensures
            match parse_json_spec(input@) {
                Ok(v) => r is Ok && r->Ok_0@ == v,
                Err(e) => r == Err::<JsonValue, JsonError>(e),
            },
    {
        let tokens = match tokenize(input) {
            Ok(tokens) => tokens,
            Err(e) => {
                return Err(JsonError::Lex(e));
            },
        };
        if tokens.len() == 0 {
            return Err(JsonError::Parse(ParseError::EmptyInput));
        }
        let mut parser = Parser::new(tokens);
        match parser.parse_value() {
            Err(e) => Err(JsonError::Parse(e)),
            Ok(v) => {
                if parser.position < parser.tokens.len() {
                    Err(JsonError::Parse(ParseError::TrailingTokens { position: parser.position }))
                } else {
                    Ok(v)
                }
            },
        }
    }

    /// Where the cursor rests after the failure `e`.
    fn resting(e: ParseError, len: usize) -> (p: usize)
        ensures
            p == resting_position(e, len as int),
    {
        match e {
            ParseError::EmptyInput => 0,
            ParseError::UnexpectedEndOfInput => len,
            ParseError::UnexpectedToken { position } => position,
            ParseError::ExpectedStringKey { position } => position,
            ParseError::ExpectedColon { position } => position,
            ParseError::ExpectedCommaOrCloser { position } => position,
            ParseError::TrailingTokens { position } => position,
        }
    }
}

} // verus!
