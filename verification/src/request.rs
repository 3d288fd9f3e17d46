//! HTTP requests and their parser.

use vstd::prelude::*;
use crate::headers::{put, value_of, Headers};
use crate::text::{
    chars_of, control, find_char, find_from, find_from_is_first, is_control, parse_usize,
    parse_usize_spec, string_of, trim, trim_span,
};

verus! {

/// An HTTP request.
#[derive(Debug)]
pub struct HttpRequest {
    pub method: String,
    pub uri: String,
    pub version: String,
    pub headers: Headers,
    /// The value of the header `Content-Length`; 0 where it is missing or no number.
    pub content_length: usize,
    pub body: String,
}

/// The mathematical model of an [`HttpRequest`].
pub struct RequestView {
    pub method: Seq<char>,
    pub uri: Seq<char>,
    pub version: Seq<char>,
    pub headers: Seq<(Seq<char>, Seq<char>)>,
    pub content_length: usize,
    pub body: Seq<char>,
}

impl View for HttpRequest {
    type V = RequestView;

    open spec fn view(&self) -> RequestView {
        RequestView {
            method: self.method@,
            uri: self.uri@,
            version: self.version@,
            headers: self.headers.entries(),
            content_length: self.content_length,
            body: self.body@,
        }
    }
}

impl Clone for HttpRequest {
    fn clone(&self) -> (r: Self)
        ensures
            r@ == self@,
    {
        HttpRequest {
            method: self.method.clone(),
            uri: self.uri.clone(),
            version: self.version.clone(),
            headers: self.headers.clone(),
            content_length: self.content_length,
            body: self.body.clone(),
        }
    }
}

/// Why a text is no HTTP request.
#[derive(Debug)]
pub enum ParseError {
    InvalidMethod(String),
    InvalidUri(String),
    InvalidVersion(String),
    MalformedRequest,
}

/// The mathematical model of a [`ParseError`].
pub enum ParseErrorView {
    InvalidMethod(Seq<char>),
    InvalidUri(Seq<char>),
    InvalidVersion(Seq<char>),
    MalformedRequest,
}

impl View for ParseError {
    type V = ParseErrorView;

    open spec fn view(&self) -> ParseErrorView {
        match self {
            ParseError::InvalidMethod(m) => ParseErrorView::InvalidMethod(m@),
            ParseError::InvalidUri(u) => ParseErrorView::InvalidUri(u@),
            ParseError::InvalidVersion(v) => ParseErrorView::InvalidVersion(v@),
            ParseError::MalformedRequest => ParseErrorView::MalformedRequest,
        }
    }
}

/// The message for an error.
pub open spec fn error_message(e: ParseErrorView) -> Seq<char> {
    match e {
        ParseErrorView::InvalidMethod(m) => "Invalid HTTP method: "@ + m,
        ParseErrorView::InvalidUri(u) => "Invalid URI: "@ + u,
        ParseErrorView::InvalidVersion(v) => "Invalid HTTP version: "@ + v,
        ParseErrorView::MalformedRequest => "Malformed HTTP request"@,
    }
}

impl ParseError {
    /// The message for the error.
    pub fn message(&self) -> (text: String)
        ensures
            text@ == error_message(self@),
    {
        match self {
            ParseError::InvalidMethod(m) => "Invalid HTTP method: ".to_owned().concat(m.as_str()),
            ParseError::InvalidUri(u) => "Invalid URI: ".to_owned().concat(u.as_str()),
            ParseError::InvalidVersion(v) => "Invalid HTTP version: ".to_owned().concat(
                v.as_str(),
            ),
            ParseError::MalformedRequest => "Malformed HTTP request".to_owned(),
        }
    }
}

/// `s` without a carriage return at its end.
pub open spec fn strip_cr(s: Seq<char>) -> Seq<char> {
    if s.len() > 0 && s.last() == '\r' {
        s.drop_last()
    } else {
        s
    }
}

/// The lines of `text[from..]`.
///
/// A line ends with a line feed, or with a carriage return and a line feed;
/// neither belongs to the line. The last line may end with the text.
pub open spec fn lines_from(text: Seq<char>, from: int) -> Seq<Seq<char>>
    decreases text.len() - from,
    via lines_from_decreases
{
    if from < 0 || from >= text.len() {
        Seq::empty()
    } else {
        let end = find_from(text, '\n', from);
        if end >= text.len() {
            seq![text.subrange(from, text.len() as int)]
        } else {
            seq![strip_cr(text.subrange(from, end))] + lines_from(text, end + 1)
        }
    }
}

#[via_fn]
proof fn lines_from_decreases(text: Seq<char>, from: int) {
    if 0 <= from < text.len() {
        find_from_is_first(text, '\n', from);
    }
}

/// `s` without the carriage returns and line feeds at its end.
pub open spec fn trim_line_end(s: Seq<char>) -> Seq<char>
    decreases s.len(),
{
    if s.len() > 0 && (s.last() == '\r' || s.last() == '\n') {
        trim_line_end(s.drop_last())
    } else {
        s
    }
}

/// A method that a request may have.
pub open spec fn valid_method(m: Seq<char>) -> bool {
    m == "GET"@ || m == "POST"@ || m == "PUT"@ || m == "DELETE"@ || m == "OPTIONS"@ || m
        == "HEAD"@ || m == "PATCH"@
}

/// A version that a request may have.
pub open spec fn valid_version(v: Seq<char>) -> bool {
    v == "HTTP/1.0"@ || v == "HTTP/1.1"@
}

/// A URI that a request may have: it starts with `/` and holds no control character.
pub open spec fn valid_uri(u: Seq<char>) -> bool {
    u.len() > 0 && u[0] == '/' && forall|i: int| 0 <= i < u.len() ==> !control(#[trigger] u[i])
}

/// The method, the URI and the version of a request line.
///
/// They are the first three of the fields that single spaces separate; the
/// version loses the line breaks at its end. The method is checked first,
/// then the version, then the URI.
pub open spec fn request_line_spec(line: Seq<char>) -> Result<
    (Seq<char>, Seq<char>, Seq<char>),
    ParseErrorView,
> {
    let a = find_from(line, ' ', 0);
    let b = find_from(line, ' ', a + 1);
    let c = find_from(line, ' ', b + 1);
    if a >= line.len() || b >= line.len() {
        Err(ParseErrorView::MalformedRequest)
    } else {
        let method = line.subrange(0, a);
        let uri = line.subrange(a + 1, b);
        let version = trim_line_end(line.subrange(b + 1, c));
        if !valid_method(method) {
            Err(ParseErrorView::InvalidMethod(method))
        } else if !valid_version(version) {
            Err(ParseErrorView::InvalidVersion(version))
        } else if !valid_uri(uri) {
            Err(ParseErrorView::InvalidUri(uri))
        } else {
            Ok((method, uri, version))
        }
    }
}

/// The headers that the lines from `lines[i]` on add to `headers`, and the
/// index of the first line of the body.
///
/// The headers end with an empty line or with the text. A header line holds
/// a name, a colon and a value; whitespace around the name and around the
/// value is dropped. A later header replaces an earlier one of the same name.
pub open spec fn headers_spec(
    lines: Seq<Seq<char>>,
    i: int,
    headers: Seq<(Seq<char>, Seq<char>)>,
) -> Result<(Seq<(Seq<char>, Seq<char>)>, int), ParseErrorView>
    decreases lines.len() - i,
{
    if i < 0 || i >= lines.len() {
        Ok((headers, i))
    } else if lines[i].len() == 0 {
        Ok((headers, i + 1))
    } else {
        let line = lines[i];
        let colon = find_from(line, ':', 0);
        if colon >= line.len() {
            Err(ParseErrorView::MalformedRequest)
        } else {
            headers_spec(
                lines,
                i + 1,
                put(
                    headers,
                    trim(line.subrange(0, colon)),
                    trim(line.subrange(colon + 1, line.len() as int)),
                ),
            )
        }
    }
}

/// The lines, with a line feed between each two.
pub open spec fn join_lines(lines: Seq<Seq<char>>) -> Seq<char>
    decreases lines.len(),
{
    if lines.len() == 0 {
        Seq::empty()
    } else if lines.len() == 1 {
        lines[0]
    } else {
        join_lines(lines.drop_last()) + seq!['\n'] + lines.last()
    }
}

/// The length that the headers announce for the body.
pub open spec fn content_length_spec(headers: Seq<(Seq<char>, Seq<char>)>) -> usize {
    match value_of(headers, "Content-Length"@) {
        Some(v) => match parse_usize_spec(v) {
            Some(n) => n,
            None => 0,
        },
        None => 0,
    }
}

/// The request that a text spells: a request line, header lines, an empty
/// line, and the body.
pub open spec fn parse_request_spec(text: Seq<char>) -> Result<RequestView, ParseErrorView> {
    let lines = lines_from(text, 0);
    if lines.len() == 0 {
        Err(ParseErrorView::MalformedRequest)
    } else {
        match request_line_spec(lines[0]) {
            Err(e) => Err(e),
            Ok((method, uri, version)) => match headers_spec(lines, 1, Seq::empty()) {
                Err(e) => Err(e),
                Ok((headers, next)) => Ok(
                    RequestView {
                        method,
                        uri,
                        version,
                        headers,
                        content_length: content_length_spec(headers),
                        body: join_lines(lines.skip(next)),
                    },
                ),
            },
        }
    }
}

/// The lines that the spans `spans` cut out of `text`.
pub open spec fn span_lines(text: Seq<char>, spans: Seq<(usize, usize)>) -> Seq<Seq<char>> {
    Seq::new(spans.len(), |i: int| text.subrange(spans[i].0 as int, spans[i].1 as int))
}

/// Every span lies within the text.
pub open spec fn spans_within(len: int, spans: Seq<(usize, usize)>) -> bool {
    forall|i: int| 0 <= i < spans.len() ==> (#[trigger] spans[i]).0 <= spans[i].1 <= len
}

/// The bounds of the lines of `text`.
pub(crate) fn line_spans(text: &Vec<char>) -> (spans: Vec<(usize, usize)>)
    ensures
        spans_within(text@.len() as int, spans@),
        span_lines(text@, spans@) == lines_from(text@, 0),
{
    let len = text.len();
    let mut spans: Vec<(usize, usize)> = Vec::new();
    let mut from: usize = 0;
    assert(span_lines(text@, spans@) =~= Seq::empty());
    assert(Seq::<Seq<char>>::empty() + lines_from(text@, 0) =~= lines_from(text@, 0));
    while from < len
        invariant
            from <= len,
            len == text.len(),
            spans_within(len as int, spans@),
            lines_from(text@, 0) == span_lines(text@, spans@) + lines_from(text@, from as int),
        decreases len - from,
    {
        assert(text@.subrange(0, len as int) =~= text@);
        let end = find_char(text, '\n', from, len);
        let ghost before = span_lines(text@, spans@);
        if end >= len {
            spans.push((from, len));
            proof {
                assert(span_lines(text@, spans@) =~= before.push(
                    text@.subrange(from as int, len as int),
                ));
                assert(before + seq![text@.subrange(from as int, len as int)] =~= before.push(
                    text@.subrange(from as int, len as int),
                ));
                assert(lines_from(text@, len as int) =~= Seq::empty());
                assert(before.push(text@.subrange(from as int, len as int)) + Seq::<
                    Seq<char>,
                >::empty() =~= before.push(text@.subrange(from as int, len as int)));
            }
            from = len;
        } else {
            let stop = if end > from && text[end - 1] == '\r' {
                end - 1
            } else {
                end
            };
            spans.push((from, stop));
            proof {
                let raw = text@.subrange(from as int, end as int);
                let line = text@.subrange(from as int, stop as int);
                if end > from {
                    assert(raw.last() == text@[end - 1]);
                }
                assert(line =~= strip_cr(raw));
                assert(span_lines(text@, spans@) =~= before.push(line));
                assert(before + (seq![line] + lines_from(text@, end + 1)) =~= before.push(line)
                    + lines_from(text@, end + 1));
            }
            from = end + 1;
        }
    }
    proof {
        assert(span_lines(text@, spans@) + Seq::<Seq<char>>::empty() =~= span_lines(
            text@,
            spans@,
        ));
    }
    spans
}

/// Whether `text[from..to]` is `word`.
fn span_is(text: &Vec<char>, from: usize, to: usize, word: &str) -> (b: bool)
    requires
        from <= to <= text.len(),
    ensures
        b == (text@.subrange(from as int, to as int) == word@),
{
    let chars = chars_of(word);
    if chars.len() != to - from {
        return false;
    }
    let mut i: usize = 0;
    while i < chars.len()
        invariant
            i <= chars.len(),
            from <= to <= text.len(),
            chars.len() == to - from,
            chars@ == word@,
            forall|k: int| 0 <= k < i ==> text@[from + k] == chars@[k],
        decreases chars.len() - i,
    {
        if text[from + i] != chars[i] {
            assert(text@.subrange(from as int, to as int)[i as int] != chars@[i as int]);
            return false;
        }
        i += 1;
    }
    assert(text@.subrange(from as int, to as int) =~= chars@);
    true
}

impl HttpRequest {
    /// Whether `text[from..to]` is a URI that a request may have.
    fn is_valid_uri(text: &Vec<char>, from: usize, to: usize) -> (b: bool)
        requires
            from <= to <= text.len(),
        ensures
            b == valid_uri(text@.subrange(from as int, to as int)),
    {
        let ghost u = text@.subrange(from as int, to as int);
        if from == to || text[from] != '/' {
            assert(u.len() > 0 ==> u[0] == text@[from as int]);
            return false;
        }
        assert(u[0] == text@[from as int]);
        let mut i: usize = from;
        while i < to
            invariant
                from <= i <= to <= text.len(),
                u == text@.subrange(from as int, to as int),
                forall|k: int| 0 <= k < i - from ==> !control(#[trigger] u[k]),
            decreases to - i,
        {
            if is_control(text[i]) {
                assert(u[i - from] == text@[i as int]);
                return false;
            }
            assert(u[i - from] == text@[i as int]);
            i += 1;
        }
        true
    }

    /// The method, the URI and the version of the request line `text[from..to]`.
    fn parse_request_line(text: &Vec<char>, from: usize, to: usize) -> (r: Result<
        (String, String, String),
        ParseError,
    >)
        requires
            from <= to <= text.len(),
        ensures
            match request_line_spec(text@.subrange(from as int, to as int)) {
                Ok((method, uri, version)) => r is Ok && r->Ok_0.0@ == method && r->Ok_0.1@ == uri
                    && r->Ok_0.2@ == version,
                Err(e) => r is Err && r->Err_0@ == e,
            },
    {
        let ghost line = text@.subrange(from as int, to as int);
        let a = find_char(text, ' ', from, to);
        proof {
            find_from_shift(text@, ' ', from as int, to as int, from as int);
        }
        if a >= to {
            return Err(ParseError::MalformedRequest);
        }
        let b = find_char(text, ' ', a + 1, to);
        proof {
            find_from_shift(text@, ' ', from as int, to as int, a + 1);
        }
        if b >= to {
            return Err(ParseError::MalformedRequest);
        }
        let c = find_char(text, ' ', b + 1, to);
        proof {
            find_from_shift(text@, ' ', from as int, to as int, b + 1);
        }
        let ghost raw = text@.subrange(b + 1, c as int);
        let mut end: usize = c;
        while end > b + 1 && (text[end - 1] == '\r' || text[end - 1] == '\n')
            invariant
                b + 1 <= end <= c <= to <= text.len(),
                raw == text@.subrange(b + 1, c as int),
                trim_line_end(raw) == trim_line_end(text@.subrange(b + 1, end as int)),
            decreases end,
        {
            proof {
                let now = text@.subrange(b + 1, end as int);
                assert(now.last() == text@[end - 1]);
                assert(now.drop_last() =~= text@.subrange(b + 1, end - 1));
            }
            end -= 1;
        }
        proof {
            let now = text@.subrange(b + 1, end as int);
            if end > b + 1 {
                assert(now.last() == text@[end - 1]);
            }
            assert(line.subrange(0, a - from) =~= text@.subrange(from as int, a as int));
            assert(line.subrange(a + 1 - from, b - from) =~= text@.subrange(a + 1, b as int));
            assert(line.subrange(b + 1 - from, c - from) =~= raw);
        }
        let known_method = span_is(text, from, a, "GET") || span_is(text, from, a, "POST")
            || span_is(text, from, a, "PUT") || span_is(text, from, a, "DELETE") || span_is(
            text,
            from,
            a,
            "OPTIONS",
        ) || span_is(text, from, a, "HEAD") || span_is(text, from, a, "PATCH");
        if !known_method {
            return Err(ParseError::InvalidMethod(string_of(text, from, a)));
        }
        let known_version = span_is(text, b + 1, end, "HTTP/1.0") || span_is(
            text,
            b + 1,
            end,
            "HTTP/1.1",
        );
        if !known_version {
            return Err(ParseError::InvalidVersion(string_of(text, b + 1, end)));
        }
        if !Self::is_valid_uri(text, a + 1, b) {
            return Err(ParseError::InvalidUri(string_of(text, a + 1, b)));
        }
        Ok((string_of(text, from, a), string_of(text, a + 1, b), string_of(text, b + 1, end)))
    }

    /// Parses a request: a request line, header lines, an empty line, and the body.
    ///
    /// A text without a request line, a request line with fewer than three
    /// fields and a header line without a colon are `MalformedRequest`.
    pub fn parse(input: &str) -> (r: Result<Self, ParseError>)
        ensures
            match parse_request_spec(input@) {
                Ok(request) => r is Ok && r->Ok_0@ == request,
                Err(e) => r is Err && r->Err_0@ == e,
            },
    {
        let text = chars_of(input);
        let spans = line_spans(&text);
        let ghost lines = lines_from(text@, 0);
        if spans.len() == 0 {
            return Err(ParseError::MalformedRequest);
        }
        assert(lines[0] == text@.subrange(spans@[0].0 as int, spans@[0].1 as int));
        let (method, uri, version) = match Self::parse_request_line(
            &text,
            spans[0].0,
            spans[0].1,
        ) {
            Ok(fields) => fields,
            Err(e) => {
                return Err(e);
            },
        };
        let mut headers = Headers::new();
        let mut i: usize = 1;
        let mut in_headers = true;
        while in_headers && i < spans.len()
            invariant
                1 <= i <= spans.len(),
                spans_within(text@.len() as int, spans@),
                span_lines(text@, spans@) == lines,
                lines == lines_from(input@, 0),
                request_line_spec(lines[0]) is Ok,
                in_headers ==> headers_spec(lines, 1, Seq::empty()) == headers_spec(
                    lines,
                    i as int,
                    headers.entries(),
                ),
                !in_headers ==> headers_spec(lines, 1, Seq::empty()) == Ok::<
                    (Seq<(Seq<char>, Seq<char>)>, int),
                    ParseErrorView,
                >((headers.entries(), i as int)),
            decreases spans.len() - i,
        {
            let (from, to) = spans[i];
            assert(lines[i as int] == text@.subrange(from as int, to as int));
            if from == to {
                in_headers = false;
            } else {
                let colon = find_char(&text, ':', from, to);
                proof {
                    find_from_shift(text@, ':', from as int, to as int, from as int);
                }
                if colon >= to {
                    return Err(ParseError::MalformedRequest);
                }
                let (name_from, name_to) = trim_span(&text, from, colon);
                let (value_from, value_to) = trim_span(&text, colon + 1, to);
                proof {
                    let line = lines[i as int];
                    assert(line.subrange(0, colon - from) =~= text@.subrange(
                        from as int,
                        colon as int,
                    ));
                    assert(line.subrange(colon + 1 - from, line.len() as int) =~= text@.subrange(
                        colon + 1,
                        to as int,
                    ));
                }
                headers.insert(
                    string_of(&text, name_from, name_to),
                    string_of(&text, value_from, value_to),
                );
            }
            i += 1;
        }
        let content_length = match headers.get("Content-Length") {
            Some(value) => {
                let digits = chars_of(value.as_str());
                assert(digits@.subrange(0, digits@.len() as int) =~= digits@);
                match parse_usize(&digits, 0, digits.len()) {
                    Some(n) => n,
                    None => 0,
                }
            },
            None => 0,
        };
        let mut body = String::new();
        let first = i;
        let mut k: usize = i;
        assert(lines.skip(first as int).take(0) =~= Seq::empty());
        while k < spans.len()
            invariant
                first <= k <= spans.len(),
                spans_within(text@.len() as int, spans@),
                span_lines(text@, spans@) == lines,
                body@ == join_lines(lines.skip(first as int).take(k - first)),
            decreases spans.len() - k,
        {
            let (from, to) = spans[k];
            proof {
                let rest = lines.skip(first as int);
                let now = rest.take(k - first + 1);
                assert(now.drop_last() =~= rest.take(k - first));
                assert(now.last() == lines[k as int]);
                assert(lines[k as int] == text@.subrange(from as int, to as int));
            }
            if k > first {
                body.push('\n');
            }
            let line = string_of(&text, from, to);
            body.append(line.as_str());
            k += 1;
            assert(body@ =~= join_lines(lines.skip(first as int).take(k - first)));
        }
        assert(lines.skip(first as int).take(spans.len() - first) =~= lines.skip(first as int));
        Ok(HttpRequest { method, uri, version, headers, content_length, body })
    }
}

/// Searching a slice of a text is searching the text up to the slice's end.
pub proof fn find_from_shift(text: Seq<char>, c: char, from: int, to: int, at: int)
    requires
        0 <= from <= at <= to <= text.len(),
    ensures
        find_from(text.subrange(from, to), c, at - from) == find_from(
            text.subrange(0, to),
            c,
            at,
        ) - from,
    decreases to - at,
{
    let a = text.subrange(from, to);
    let b = text.subrange(0, to);
    if at < to {
        assert(a[at - from] == b[at]);
        if a[at - from] != c {
            find_from_shift(text, c, from, to, at + 1);
        }
    }
}

} // verus!
