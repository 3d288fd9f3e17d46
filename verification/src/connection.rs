//! Reading one request from a connection, step by step.
//!
//! The caller reads from the connection and hands over what came; the
//! decisions are made here: whether to read on, whom to answer, when to give up.

use vstd::prelude::*;
use vstd::utf8::{decode_utf8, valid_utf8};
use crate::app::{content_length_from, headers_end_at, headers_end_from, App};
use crate::request::{
    lines_from, parse_request_spec, HttpRequest, ParseError, ParseErrorView, RequestView,
};

verus! {

/// The number of bytes after which a request whose headers have not ended is given up.
pub const MAX_REQUEST_SIZE: usize = 8192;

/// What a read from the connection yielded.
#[derive(Debug)]
pub enum Event {
    /// The bytes that were read; none at all where the peer has closed the connection.
    Bytes(Vec<u8>),
    /// The read failed.
    Failed,
}

/// Why a connection is closed without an answer.
#[derive(Debug)]
pub enum DropReason {
    /// The peer closed the connection before the headers ended.
    Closed,
    /// A read failed.
    ReadFailed,
    /// The headers had not ended after `MAX_REQUEST_SIZE` bytes.
    TooLarge,
    /// The headers are no UTF-8.
    InvalidHeaders,
    /// The headers are no request.
    Malformed(ParseError),
}

/// The mathematical model of a [`DropReason`].
pub enum DropReasonView {
    Closed,
    ReadFailed,
    TooLarge,
    InvalidHeaders,
    Malformed(ParseErrorView),
}

impl View for DropReason {
    type V = DropReasonView;

    open spec fn view(&self) -> DropReasonView {
        match self {
            DropReason::Closed => DropReasonView::Closed,
            DropReason::ReadFailed => DropReasonView::ReadFailed,
            DropReason::TooLarge => DropReasonView::TooLarge,
            DropReason::InvalidHeaders => DropReasonView::InvalidHeaders,
            DropReason::Malformed(e) => DropReasonView::Malformed(e@),
        }
    }
}

/// A connection on which a request is being read.
#[derive(Debug)]
pub enum Connection {
    /// The headers have not ended; these bytes were read so far.
    Head(Vec<u8>),
    /// The headers are read; of the body `body` is there and `missing` bytes are not.
    Body { request: HttpRequest, body: Vec<u8>, missing: usize },
}

/// The mathematical model of a [`Connection`].
pub enum ConnectionView {
    Head(Seq<u8>),
    Body { request: RequestView, body: Seq<u8>, missing: usize },
}

impl View for Connection {
    type V = ConnectionView;

    open spec fn view(&self) -> ConnectionView {
        match self {
            Connection::Head(data) => ConnectionView::Head(data@),
            Connection::Body { request, body, missing } => ConnectionView::Body {
                request: request@,
                body: body@,
                missing: *missing,
            },
        }
    }
}

/// What is to be done next.
#[derive(Debug)]
pub enum Step {
    /// Read from the connection and come back with what the read yielded.
    Read(Connection),
    /// Answer this request.
    Respond(HttpRequest),
    /// Close the connection without an answer.
    Drop(DropReason),
}

/// The mathematical model of a [`Step`].
pub enum StepView {
    Read(ConnectionView),
    Respond(RequestView),
    Drop(DropReasonView),
}

impl View for Step {
    type V = StepView;

    open spec fn view(&self) -> StepView {
        match self {
            Step::Read(c) => StepView::Read(c@),
            Step::Respond(r) => StepView::Respond(r@),
            Step::Drop(d) => StepView::Drop(d@),
        }
    }
}

/// The request with the body that was read, where that is UTF-8; the
/// request as the headers gave it, where it is not.
pub open spec fn with_body(request: RequestView, body: Seq<u8>) -> RequestView {
    if valid_utf8(body) {
        RequestView { body: decode_utf8(body), ..request }
    } else {
        request
    }
}

/// The step after the headers have ended: `data` holds the headers, which
/// end before `data[head_end]`, and what was read of the body.
///
/// Headers that are no UTF-8 or no request end the connection. A request
/// that announces no body is answered at once. Otherwise what follows the
/// headers is the start of the body, and the rest of the announced length is
/// read.
pub open spec fn after_head(data: Seq<u8>, head_end: int) -> StepView {
    let head = data.subrange(0, head_end);
    if !valid_utf8(head) {
        StepView::Drop(DropReasonView::InvalidHeaders)
    } else {
        match parse_request_spec(decode_utf8(head)) {
            Err(e) => StepView::Drop(DropReasonView::Malformed(e)),
            Ok(request) => {
                let announced = content_length_from(lines_from(decode_utf8(head), 0), 0);
                let body = data.subrange(head_end, data.len() as int);
                if announced == 0 {
                    StepView::Respond(request)
                } else if announced > body.len() {
                    StepView::Read(
                        ConnectionView::Body {
                            request,
                            body,
                            missing: (announced - body.len()) as usize,
                        },
                    )
                } else {
                    StepView::Respond(with_body(request, body))
                }
            },
        }
    }
}

/// The step that an event leads to.
///
/// While the headers have not ended, what is read is collected; the end of
/// the stream and a failed read end the connection, and so do
/// `MAX_REQUEST_SIZE` bytes without the end of the headers. While the body
/// is read, at most the missing bytes are taken from what is read; the end
/// of the stream ends the body early, a failed read ends the connection.
pub open spec fn step_spec(c: ConnectionView, event: Option<Seq<u8>>) -> StepView {
    match c {
        ConnectionView::Head(data) => match event {
            None => StepView::Drop(DropReasonView::ReadFailed),
            Some(bytes) => if bytes.len() == 0 {
                StepView::Drop(DropReasonView::Closed)
            } else {
                let all = data + bytes;
                let end = headers_end_from(all, 0);
                if end < all.len() {
                    after_head(all, end + 4)
                } else if all.len() >= MAX_REQUEST_SIZE {
                    StepView::Drop(DropReasonView::TooLarge)
                } else {
                    StepView::Read(ConnectionView::Head(all))
                }
            },
        },
        ConnectionView::Body { request, body, missing } => match event {
            None => StepView::Drop(DropReasonView::ReadFailed),
            Some(bytes) => if bytes.len() == 0 {
                StepView::Respond(with_body(request, body))
            } else if bytes.len() >= missing {
                StepView::Respond(with_body(request, body + bytes.take(missing as int)))
            } else {
                StepView::Read(
                    ConnectionView::Body {
                        request,
                        body: body + bytes,
                        missing: (missing - bytes.len()) as usize,
                    },
                )
            },
        },
    }
}

/// The model of an event: the bytes that were read, or nothing for a failed read.
pub open spec fn event_view(event: Event) -> Option<Seq<u8>> {
    match event {
        Event::Bytes(bytes) => Some(bytes@),
        Event::Failed => None,
    }
}

/// `std`'s `str::from_utf8` accepts exactly the byte sequences that are
/// UTF-8, and yields the text that they encode.
#[verifier::external_body]
fn text_of(bytes: &[u8]) -> (r: Option<String>)
    ensures
        r is Some <==> valid_utf8(bytes@),
        r is Some ==> r->0@ == decode_utf8(bytes@),
{
    match std::str::from_utf8(bytes) {
        Ok(text) => Some(text.to_string()),
        Err(_) => None,
    }
}

/// Appends `from[start..end]` to `to`.
fn append_bytes(to: &mut Vec<u8>, from: &Vec<u8>, start: usize, end: usize)
    requires
        start <= end <= from.len(),
    ensures
        final(to)@ == old(to)@ + from@.subrange(start as int, end as int),
{
    let mut i: usize = start;
    while i < end
        invariant
            start <= i <= end <= from.len(),
            to@ == old(to)@ + from@.subrange(start as int, i as int),
        decreases end - i,
    {
        to.push(from[i]);
        i += 1;
        assert(to@ =~= old(to)@ + from@.subrange(start as int, i as int));
    }
    assert(to@ =~= old(to)@ + from@.subrange(start as int, end as int));
}

/// The request with the body that was read.
fn finish(request: HttpRequest, body: &Vec<u8>) -> (r: HttpRequest)
    ensures
        r@ == with_body(request@, body@),
{
    match text_of(body.as_slice()) {
        Some(text) => {
            let mut request = request;
            request.body = text;
            request
        },
        None => request,
    }
}

impl Connection {
    /// A connection from which nothing was read yet.
    pub fn new() -> (c: Self)
        ensures
            c@ == ConnectionView::Head(Seq::empty()),
    {
        Connection::Head(Vec::new())
    }

    /// The step after the headers have ended before `data[head_end]`.
    fn head_complete(data: Vec<u8>, head_end: usize) -> (s: Step)
        requires
            head_end <= data.len(),
        ensures
            s@ == after_head(data@, head_end as int),
    {
        let mut head: Vec<u8> = Vec::new();
        append_bytes(&mut head, &data, 0, head_end);
        assert(head@ =~= data@.subrange(0, head_end as int));
        let text = match text_of(head.as_slice()) {
            Some(text) => text,
            None => {
                return Step::Drop(DropReason::InvalidHeaders);
            },
        };
        let request = match HttpRequest::parse(text.as_str()) {
            Ok(request) => request,
            Err(e) => {
                return Step::Drop(DropReason::Malformed(e));
            },
        };
        let announced = App::get_content_length(text.as_str());
        if announced == 0 {
            return Step::Respond(request);
        }
        let mut body: Vec<u8> = Vec::new();
        append_bytes(&mut body, &data, head_end, data.len());
        assert(body@ =~= data@.subrange(head_end as int, data@.len() as int));
        if announced > body.len() {
            let missing = announced - body.len();
            Step::Read(Connection::Body { request, body, missing })
        } else {
            Step::Respond(finish(request, &body))
        }
    }

    /// Takes what a read yielded and says what is to be done next.
    pub fn step(self, event: Event) -> (s: Step)
        ensures
            s@ == step_spec(self@, event_view(event)),
    {
        match self {
            Connection::Head(data) => match event {
                Event::Failed => Step::Drop(DropReason::ReadFailed),
                Event::Bytes(bytes) => {
                    if bytes.len() == 0 {
                        return Step::Drop(DropReason::Closed);
                    }
                    let mut all = data;
                    append_bytes(&mut all, &bytes, 0, bytes.len());
                    assert(all@ =~= data@ + bytes@) by {
                        assert(bytes@.subrange(0, bytes@.len() as int) =~= bytes@);
                    }
                    let total = all.len();
                    match App::find_headers_end(all.as_slice()) {
                        Some(end) => {
                            assert(headers_end_at(all@, end as int));
                            Self::head_complete(all, end + 4)
                        },
                        None => {
                            if total >= MAX_REQUEST_SIZE {
                                Step::Drop(DropReason::TooLarge)
                            } else {
                                Step::Read(Connection::Head(all))
                            }
                        },
                    }
                },
            },
            Connection::Body { request, body, missing } => match event {
                Event::Failed => Step::Drop(DropReason::ReadFailed),
                Event::Bytes(bytes) => {
                    if bytes.len() == 0 {
                        return Step::Respond(finish(request, &body));
                    }
                    let mut body = body;
                    if bytes.len() >= missing {
                        append_bytes(&mut body, &bytes, 0, missing);
                        assert(bytes@.subrange(0, missing as int) =~= bytes@.take(missing as int));
                        Step::Respond(finish(request, &body))
                    } else {
                        append_bytes(&mut body, &bytes, 0, bytes.len());
                        assert(bytes@.subrange(0, bytes@.len() as int) =~= bytes@);
                        let missing = missing - bytes.len();
                        Step::Read(Connection::Body { request, body, missing })
                    }
                },
            },
        }
    }
}

} // verus!
