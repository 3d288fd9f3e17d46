use mhttp::connection::{Connection, DropReason, Event, Step, MAX_REQUEST_SIZE};
use mhttp::request::ParseError;

fn bytes(text: &str) -> Event {
    Event::Bytes(text.as_bytes().to_vec())
}

fn reading(step: Step) -> Connection {
    match step {
        Step::Read(connection) => connection,
        other => panic!("{:?}", other),
    }
}

#[test]
fn a_request_without_body_is_answered_when_its_headers_end() {
    match Connection::new().step(bytes("GET /a HTTP/1.1\r\nHost: x\r\n\r\n")) {
        Step::Respond(request) => {
            assert_eq!(request.method, "GET");
            assert_eq!(request.uri, "/a");
            assert_eq!(request.headers.get("Host"), Some(&"x".to_string()));
            assert_eq!(request.body, "");
        }
        other => panic!("{:?}", other),
    }
}

#[test]
fn headers_may_come_in_pieces() {
    let c = reading(Connection::new().step(bytes("GET /a HT")));
    let c = reading(c.step(bytes("TP/1.1\r\nHost: x\r\n\r")));
    match c.step(bytes("\n")) {
        Step::Respond(request) => assert_eq!(request.uri, "/a"),
        other => panic!("{:?}", other),
    }
}

#[test]
fn a_body_that_came_with_the_headers_is_taken() {
    match Connection::new().step(bytes("POST /a HTTP/1.1\r\nContent-Length: 5\r\n\r\nhello")) {
        Step::Respond(request) => {
            assert_eq!(request.body, "hello");
            assert_eq!(request.content_length, 5);
        }
        other => panic!("{:?}", other),
    }
}

#[test]
fn more_than_the_announced_body_is_taken_where_it_came_with_the_headers() {
    match Connection::new().step(bytes("POST /a HTTP/1.1\r\nContent-Length: 2\r\n\r\nhello")) {
        Step::Respond(request) => assert_eq!(request.body, "hello"),
        other => panic!("{:?}", other),
    }
}

#[test]
fn a_missing_body_is_read_up_to_the_announced_length() {
    let c = reading(
        Connection::new().step(bytes("POST /a HTTP/1.1\r\ncontent-length: 10\r\n\r\nabc")),
    );
    match &c {
        Connection::Body { body, missing, .. } => {
            assert_eq!(body, b"abc");
            assert_eq!(*missing, 7);
        }
        other => panic!("{:?}", other),
    }
    let c = reading(c.step(bytes("defg")));
    match c.step(bytes("hijklmnop")) {
        Step::Respond(request) => assert_eq!(request.body, "abcdefghij"),
        other => panic!("{:?}", other),
    }
}

#[test]
fn the_end_of_the_stream_ends_the_body_early() {
    let c = reading(
        Connection::new().step(bytes("POST /a HTTP/1.1\r\nContent-Length: 10\r\n\r\nabc")),
    );
    match c.step(Event::Bytes(vec![])) {
        Step::Respond(request) => assert_eq!(request.body, "abc"),
        other => panic!("{:?}", other),
    }
}

#[test]
fn a_body_that_is_no_text_is_left_out() {
    let mut data = b"POST /a HTTP/1.1\r\nContent-Length: 2\r\n\r\n".to_vec();
    data.extend_from_slice(&[0xff, 0xfe]);
    match Connection::new().step(Event::Bytes(data)) {
        Step::Respond(request) => assert_eq!(request.body, ""),
        other => panic!("{:?}", other),
    }
}

#[test]
fn a_body_of_several_bytes_per_character_is_decoded() {
    let c = reading(
        Connection::new().step(bytes("POST /a HTTP/1.1\r\nContent-Length: 6\r\n\r\n")),
    );
    let c = reading(c.step(Event::Bytes(vec![0xc3])));
    match c.step(Event::Bytes(vec![0xa9, 0xf0, 0x9f, 0x98, 0x80, b'x'])) {
        Step::Respond(request) => assert_eq!(request.body, "\u{e9}\u{1F600}"),
        other => panic!("{:?}", other),
    }
}

#[test]
fn a_closed_connection_is_dropped() {
    assert!(matches!(
        Connection::new().step(Event::Bytes(vec![])),
        Step::Drop(DropReason::Closed)
    ));
    let c = reading(Connection::new().step(bytes("GET / HTTP/1.1\r\n")));
    assert!(matches!(c.step(Event::Bytes(vec![])), Step::Drop(DropReason::Closed)));
}

#[test]
fn a_failed_read_drops_the_connection() {
    assert!(matches!(Connection::new().step(Event::Failed), Step::Drop(DropReason::ReadFailed)));
    let c = reading(
        Connection::new().step(bytes("POST /a HTTP/1.1\r\nContent-Length: 10\r\n\r\nabc")),
    );
    assert!(matches!(c.step(Event::Failed), Step::Drop(DropReason::ReadFailed)));
}

#[test]
fn headers_that_do_not_end_are_given_up() {
    let mut c = Connection::new();
    let chunk = "x".repeat(4096);
    c = reading(c.step(bytes(&chunk[..4095])));
    c = reading(c.step(bytes(&chunk)));
    assert!(matches!(c.step(bytes("y")), Step::Drop(DropReason::TooLarge)));
    assert_eq!(MAX_REQUEST_SIZE, 8192);
}

#[test]
fn long_headers_that_end_are_taken() {
    let line = format!("GET / HTTP/1.1\r\nX: {}\r\n\r\n", "x".repeat(9000));
    assert!(matches!(Connection::new().step(bytes(&line)), Step::Respond(_)));
}

#[test]
fn headers_that_are_no_text_are_dropped() {
    let mut data = b"GET / HTTP/1.1\r\nX: ".to_vec();
    data.push(0xff);
    data.extend_from_slice(b"\r\n\r\n");
    assert!(matches!(
        Connection::new().step(Event::Bytes(data)),
        Step::Drop(DropReason::InvalidHeaders)
    ));
}

#[test]
fn headers_that_are_no_request_are_dropped() {
    assert!(matches!(
        Connection::new().step(bytes("FETCH / HTTP/1.1\r\n\r\n")),
        Step::Drop(DropReason::Malformed(ParseError::InvalidMethod(_)))
    ));
    assert!(matches!(
        Connection::new().step(bytes("\r\n\r\n")),
        Step::Drop(DropReason::Malformed(ParseError::MalformedRequest))
    ));
}
