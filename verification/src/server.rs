//! The HTTP request and response model.

use vstd::prelude::*;
use vstd::utf8::encode_utf8;
use crate::headers::Headers;
use crate::text::{decimal, push_decimal};

pub use crate::request::{HttpRequest, ParseError};

verus! {

/// An HTTP status code.
#[derive(Debug, Clone, Copy, PartialEq, Eq)]
pub enum StatusCode {
    /// 200 OK
    OK,
    /// 404 Not Found
    NotFound,
    /// 400 Bad Request
    BadRequest,
    /// 500 Internal Server Error
    InternalServerError,
}

/// The number of a status code.
pub open spec fn status_number(status: StatusCode) -> u16 {
    match status {
        StatusCode::OK => 200,
        StatusCode::NotFound => 404,
        StatusCode::BadRequest => 400,
        StatusCode::InternalServerError => 500,
    }
}

/// The reason phrase of a status code.
pub open spec fn status_reason(status: StatusCode) -> Seq<char> {
    match status {
        StatusCode::OK => "OK"@,
        StatusCode::NotFound => "Not Found"@,
        StatusCode::BadRequest => "Bad Request"@,
        StatusCode::InternalServerError => "Internal Server Error"@,
    }
}

impl StatusCode {
    /// The number of the status code.
    pub fn as_u16(&self) -> (n: u16)
        ensures
            n == status_number(*self),
    {
        match self {
            StatusCode::OK => 200,
            StatusCode::NotFound => 404,
            StatusCode::BadRequest => 400,
            StatusCode::InternalServerError => 500,
        }
    }

    /// The reason phrase of the status code.
    pub fn reason_phrase(&self) -> (phrase: &'static str)
        ensures
            phrase@ == status_reason(*self),
    {
        match self {
            StatusCode::OK => "OK",
            StatusCode::NotFound => "Not Found",
            StatusCode::BadRequest => "Bad Request",
            StatusCode::InternalServerError => "Internal Server Error",
        }
    }
}

/// An HTTP response.
#[derive(Debug)]
pub struct HttpResponse {
    /// The HTTP version, such as `HTTP/1.1`.
    pub version: String,
    pub status: StatusCode,
    /// The reason phrase that is sent with the status.
    pub status_message: String,
    pub headers: Headers,
    pub body: String,
}

/// The mathematical model of an [`HttpResponse`].
pub struct ResponseView {
    pub version: Seq<char>,
    pub status: StatusCode,
    pub status_message: Seq<char>,
    pub headers: Seq<(Seq<char>, Seq<char>)>,
    pub body: Seq<char>,
}

impl View for HttpResponse {
    type V = ResponseView;

    open spec fn view(&self) -> ResponseView {
        ResponseView {
            version: self.version@,
            status: self.status,
            status_message: self.status_message@,
            headers: self.headers.entries(),
            body: self.body@,
        }
    }
}

/// The response with the given status and body: version `HTTP/1.1`, the
/// status's reason phrase, and one header, `Content-Length`, with the length
/// of the body in bytes of UTF-8.
pub open spec fn new_response(status: StatusCode, body: Seq<char>) -> ResponseView {
    ResponseView {
        version: "HTTP/1.1"@,
        status,
        status_message: status_reason(status),
        headers: seq![("Content-Length"@, decimal(encode_utf8(body).len()))],
        body,
    }
}

/// The header lines: for each header its name, `": "`, its value and a line break.
pub open spec fn header_lines(headers: Seq<(Seq<char>, Seq<char>)>) -> Seq<char>
    decreases headers.len(),
{
    if headers.len() == 0 {
        Seq::empty()
    } else {
        header_lines(headers.drop_last()) + headers.last().0 + seq![':', ' '] + headers.last().1
            + seq!['\r', '\n']
    }
}

/// The text of a response as it is sent: the status line, the header lines,
/// an empty line, the body.
pub open spec fn response_text(r: ResponseView) -> Seq<char> {
    r.version + seq![' '] + decimal(status_number(r.status) as nat) + seq![' '] + r.status_message
        + seq!['\r', '\n'] + header_lines(r.headers) + seq!['\r', '\n'] + r.body
}

impl HttpResponse {
    /// A response with the given status and body, and with the one header
    /// `Content-Length`.
    pub fn new(status: StatusCode, body: String) -> (r: Self)
        ensures
            r@ == new_response(status, body@),
    {
        let mut headers = Headers::new();
        let mut length = String::new();
        push_decimal(&mut length, body.as_str().as_bytes().len());
        assert(length@ =~= decimal(encode_utf8(body@).len()));
        headers.insert("Content-Length".to_owned(), length);
        assert(headers.entries() =~= seq![
            ("Content-Length"@, decimal(encode_utf8(body@).len())),
        ]);
        HttpResponse {
            version: "HTTP/1.1".to_owned(),
            status,
            status_message: status.reason_phrase().to_owned(),
            headers,
            body,
        }
    }

    /// The text of the response as it is sent.
    pub fn to_string(&self) -> (text: String)
        ensures
            text@ == response_text(self@),
    {
        let mut text = String::new();
        text.append(self.version.as_str());
        text.push(' ');
        push_decimal(&mut text, self.status.as_u16() as usize);
        text.push(' ');
        text.append(self.status_message.as_str());
        text.push('\r');
        text.push('\n');
        let ghost start = text@;
        assert(start =~= self.version@ + seq![' '] + decimal(status_number(self.status) as nat)
            + seq![' '] + self.status_message@ + seq!['\r', '\n']);
        let ghost entries = self.headers.entries();
        let n = self.headers.len();
        let mut i: usize = 0;
        assert(entries.take(0) =~= Seq::empty());
        while i < n
            invariant
                i <= n,
                n == entries.len(),
                entries == self.headers.entries(),
                text@ == start + header_lines(entries.take(i as int)),
            decreases n - i,
        {
            let (name, value) = self.headers.entry(i).unwrap();
            proof {
                let next = entries.take(i + 1);
                assert(next.drop_last() =~= entries.take(i as int));
                assert(next.last() == entries[i as int]);
            }
            text.append(name.as_str());
            text.push(':');
            text.push(' ');
            text.append(value.as_str());
            text.push('\r');
            text.push('\n');
            i += 1;
            assert(text@ =~= start + header_lines(entries.take(i as int)));
        }
        assert(entries.take(n as int) =~= entries);
        text.push('\r');
        text.push('\n');
        text.append(self.body.as_str());
        assert(text@ =~= response_text(self@));
        text
    }
}

impl Clone for HttpResponse {
    fn clone(&self) -> (r: Self)
        ensures
            r@ == self@,
    {
        HttpResponse {
            version: self.version.clone(),
            status: self.status,
            status_message: self.status_message.clone(),
            headers: self.headers.clone(),
            body: self.body.clone(),
        }
    }
}

impl Default for HttpResponse {
    /// A response with status 200 and an empty body.
    fn default() -> (r: Self)
        ensures
            r@ == new_response(StatusCode::OK, Seq::empty()),
    {
        Self::new(StatusCode::OK, String::new())
    }
}

/// A value that can be sent as an HTTP response.
pub trait Respondable: Sized {
    /// Whether `r` is the response that `self` turns into. An implementation
    /// that states nothing promises nothing.
    open spec fn responds(self, r: HttpResponse) -> bool {
        true
    }

    /// Turns the value into a response.
    fn into_response(self) -> (r: HttpResponse)
        ensures
            self.responds(r),
    ;
}

impl Respondable for String {
    /// A text is the body of a response with status 200.
    open spec fn responds(self, r: HttpResponse) -> bool {
        r@ == new_response(StatusCode::OK, self@)
    }

    fn into_response(self) -> (r: HttpResponse) {
        HttpResponse::new(StatusCode::OK, self)
    }
}

impl Respondable for &str {
    /// A text is the body of a response with status 200.
    open spec fn responds(self, r: HttpResponse) -> bool {
        r@ == new_response(StatusCode::OK, self@)
    }

    fn into_response(self) -> (r: HttpResponse) {
        HttpResponse::new(StatusCode::OK, self.to_owned())
    }
}

impl Respondable for HttpResponse {
    /// A response is sent as it is.
    open spec fn responds(self, r: HttpResponse) -> bool {
        r == self
    }

    fn into_response(self) -> (r: HttpResponse) {
        self
    }
}

impl<T: Respondable> Respondable for Result<T, String> {
    /// A success is sent as its value is; a failure is the body of a
    /// response with status 500.
    open spec fn responds(self, r: HttpResponse) -> bool {
        match self {
            Ok(value) => value.responds(r),
            Err(message) => r@ == new_response(StatusCode::InternalServerError, message@),
        }
    }

    fn into_response(self) -> (r: HttpResponse) {
        match self {
            Ok(value) => value.into_response(),
            Err(message) => HttpResponse::new(StatusCode::InternalServerError, message),
        }
    }
}

impl Respondable for () {
    /// Nothing is sent as a response with status 200 and an empty body.
    open spec fn responds(self, r: HttpResponse) -> bool {
        r@ == new_response(StatusCode::OK, Seq::empty())
    }

    fn into_response(self) -> (r: HttpResponse) {
        HttpResponse::new(StatusCode::OK, String::new())
    }
}

} // verus!
