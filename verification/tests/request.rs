use mhttp::app::App;
use mhttp::request::{HttpRequest, ParseError};

fn parsed(text: &str) -> HttpRequest {
    HttpRequest::parse(text).expect("a request")
}

fn headers_of(request: &HttpRequest) -> Vec<(String, String)> {
    (0..request.headers.len())
        .map(|i| {
            let (name, value) = request.headers.entry(i).expect("an entry");
            (name.clone(), value.clone())
        })
        .collect()
}

fn pair(name: &str, value: &str) -> (String, String) {
    (name.to_string(), value.to_string())
}

#[test]
fn a_request_without_headers_or_body() {
    let request = parsed("GET / HTTP/1.1\r\n\r\n");
    assert_eq!(request.method, "GET");
    assert_eq!(request.uri, "/");
    assert_eq!(request.version, "HTTP/1.1");
    assert_eq!(request.headers.len(), 0);
    assert_eq!(request.content_length, 0);
    assert_eq!(request.body, "");
}

#[test]
fn a_request_line_alone_is_a_request() {
    let request = parsed("DELETE /items/7 HTTP/1.0");
    assert_eq!(request.method, "DELETE");
    assert_eq!(request.uri, "/items/7");
    assert_eq!(request.version, "HTTP/1.0");
    assert_eq!(request.body, "");
}

#[test]
fn headers_are_trimmed_and_kept_in_order() {
    let request = parsed(
        "POST /submit HTTP/1.1\r\nHost:  example.org \r\n  Content-Length : 11\r\nX-Empty:\r\nA:b:c\r\n\r\nhello world",
    );
    assert_eq!(
        headers_of(&request),
        vec![
            pair("Host", "example.org"),
            pair("Content-Length", "11"),
            pair("X-Empty", ""),
            pair("A", "b:c"),
        ]
    );
    assert_eq!(request.content_length, 11);
    assert_eq!(request.body, "hello world");
    assert_eq!(request.headers.get("Host"), Some(&"example.org".to_string()));
    assert_eq!(request.headers.get("host"), None);
}

#[test]
fn a_later_header_replaces_an_earlier_one() {
    let request = parsed("GET / HTTP/1.1\nA: 1\nB: 2\nA: 3\n\n");
    assert_eq!(headers_of(&request), vec![pair("A", "3"), pair("B", "2")]);
}

#[test]
fn the_body_is_the_lines_after_the_empty_line() {
    let request = parsed("PUT /a HTTP/1.1\r\n\r\nline one\r\nline two\n\nlast");
    assert_eq!(request.body, "line one\nline two\n\nlast");
    let request = parsed("PUT /a HTTP/1.1\r\n\r\nline one\r\n");
    assert_eq!(request.body, "line one");
    let request = parsed("PUT /a HTTP/1.1\r\nA: b");
    assert_eq!(request.body, "");
    assert_eq!(headers_of(&request), vec![pair("A", "b")]);
}

#[test]
fn content_length_is_zero_unless_it_is_a_number() {
    assert_eq!(parsed("GET / HTTP/1.1\nContent-Length: 42\n\n").content_length, 42);
    assert_eq!(parsed("GET / HTTP/1.1\nContent-Length: +42\n\n").content_length, 42);
    assert_eq!(parsed("GET / HTTP/1.1\nContent-Length: 007\n\n").content_length, 7);
    assert_eq!(parsed("GET / HTTP/1.1\nContent-Length: -1\n\n").content_length, 0);
    assert_eq!(parsed("GET / HTTP/1.1\nContent-Length: 4 2\n\n").content_length, 0);
    assert_eq!(parsed("GET / HTTP/1.1\nContent-Length: abc\n\n").content_length, 0);
    assert_eq!(parsed("GET / HTTP/1.1\nContent-Length:\n\n").content_length, 0);
    assert_eq!(parsed("GET / HTTP/1.1\ncontent-length: 42\n\n").content_length, 0);
    assert_eq!(
        parsed("GET / HTTP/1.1\nContent-Length: 99999999999999999999999999\n\n").content_length,
        0
    );
    assert_eq!(
        parsed(&format!("GET / HTTP/1.1\nContent-Length: {}\n\n", usize::MAX)).content_length,
        usize::MAX
    );
}

#[test]
fn every_method_of_the_list_is_accepted() {
    for method in ["GET", "POST", "PUT", "DELETE", "OPTIONS", "HEAD", "PATCH"] {
        let request = parsed(&format!("{} /x HTTP/1.1\r\n\r\n", method));
        assert_eq!(request.method, method);
    }
}

#[test]
fn any_other_method_is_invalid() {
    for method in ["get", "TRACE", "", "GETS", "G"] {
        match HttpRequest::parse(&format!("{} /x HTTP/1.1\r\n\r\n", method)) {
            Err(ParseError::InvalidMethod(m)) => assert_eq!(m, method),
            other => panic!("{:?}", other),
        }
    }
}

#[test]
fn any_other_version_is_invalid() {
    for version in ["HTTP/2", "http/1.1", "HTTP/1.1x", ""] {
        match HttpRequest::parse(&format!("GET /x {}\r\n\r\n", version)) {
            Err(ParseError::InvalidVersion(v)) => assert_eq!(v, version),
            other => panic!("{:?}", other),
        }
    }
}

#[test]
fn a_uri_starts_with_a_slash_and_has_no_control_character() {
    for uri in ["x", "", "http://a/", "/a\tb", "/a\u{7f}", "/\u{85}"] {
        match HttpRequest::parse(&format!("GET {} HTTP/1.1\r\n\r\n", uri)) {
            Err(ParseError::InvalidUri(u)) => assert_eq!(u, uri),
            other => panic!("{:?}", other),
        }
    }
    assert_eq!(parsed("GET /caf\u{e9}?q=1#f HTTP/1.1").uri, "/caf\u{e9}?q=1#f");
}

#[test]
fn the_method_is_checked_before_the_version_and_the_uri() {
    assert!(matches!(
        HttpRequest::parse("FETCH x HTTP/9"),
        Err(ParseError::InvalidMethod(_))
    ));
    assert!(matches!(
        HttpRequest::parse("GET x HTTP/9"),
        Err(ParseError::InvalidVersion(_))
    ));
}

#[test]
fn a_request_line_needs_three_fields() {
    for text in ["", "GET", "GET /", "GET/ HTTP/1.1", "\r\n", "\nGET / HTTP/1.1"] {
        assert!(
            matches!(HttpRequest::parse(text), Err(ParseError::MalformedRequest)),
            "{:?}",
            text
        );
    }
}

#[test]
fn fields_after_the_third_are_ignored() {
    let request = parsed("GET / HTTP/1.1 extra words\r\n\r\n");
    assert_eq!(request.version, "HTTP/1.1");
}

#[test]
fn two_spaces_make_an_empty_field() {
    assert!(matches!(
        HttpRequest::parse("GET  / HTTP/1.1"),
        Err(ParseError::InvalidVersion(v)) if v == "/"
    ));
}

#[test]
fn a_carriage_return_at_the_end_of_the_version_is_dropped() {
    let request = parsed("GET / HTTP/1.1\r");
    assert_eq!(request.version, "HTTP/1.1");
    let request = parsed("GET / HTTP/1.1\r\r\n\r\n");
    assert_eq!(request.version, "HTTP/1.1");
}

#[test]
fn a_header_line_needs_a_colon() {
    assert!(matches!(
        HttpRequest::parse("GET / HTTP/1.1\r\nNoColon\r\n\r\n"),
        Err(ParseError::MalformedRequest)
    ));
    assert!(matches!(
        HttpRequest::parse("GET / HTTP/1.1\r\nA: b\r\n \r\n\r\n"),
        Err(ParseError::MalformedRequest)
    ));
}

#[test]
fn errors_have_messages() {
    assert_eq!(
        ParseError::InvalidMethod("FETCH".to_string()).message(),
        "Invalid HTTP method: FETCH"
    );
    assert_eq!(ParseError::InvalidUri("x".to_string()).message(), "Invalid URI: x");
    assert_eq!(
        ParseError::InvalidVersion("HTTP/9".to_string()).message(),
        "Invalid HTTP version: HTTP/9"
    );
    assert_eq!(ParseError::MalformedRequest.message(), "Malformed HTTP request");
}

#[test]
fn lines_are_split_as_std_splits_them() {
    let texts = [
        "",
        "\n",
        "\r\n",
        "a",
        "a\n",
        "a\r\n",
        "a\r",
        "a\r\r\n",
        "\r",
        "a\n\nb",
        "a\r\n\r\nb\r\n",
        "a\rb\nc",
        "\n\n\n",
        "x\n\r\ny\r",
    ];
    for text in texts {
        // Behind a request line and an empty line, the body shows the lines.
        let request = parsed(&format!("GET / HTTP/1.1\n\n{}", text));
        let expected: Vec<&str> = text.lines().collect();
        assert_eq!(request.body, expected.join("\n"), "{:?}", text);
    }
}

#[test]
fn header_values_are_trimmed_as_std_trims_them() {
    let values = [" a ", "\t a b \u{a0}", "\u{3000}x\u{2003}", "", "   ", "\u{200b}x"];
    for value in values {
        let request = parsed(&format!("GET / HTTP/1.1\nK:{}\n\n", value));
        assert_eq!(request.headers.get("K"), Some(&value.trim().to_string()), "{:?}", value);
    }
}

#[test]
fn numbers_are_read_as_std_reads_them() {
    let texts = [
        "", "0", "1", "+1", "-1", "+", "-", "12a", "a12", "0012", "1 2", "++1", "+-1",
        "18446744073709551615", "18446744073709551616", "99999999999999999999", "1_000",
        "4294967295", "4294967296", "1.0", "0x10", "\u{661}",
    ];
    for text in texts {
        let expected = text.parse::<usize>().unwrap_or(0);
        assert_eq!(
            App::get_content_length(&format!("Content-Length:{}", text)),
            expected,
            "{:?}",
            text
        );
        assert_eq!(
            parsed(&format!("GET / HTTP/1.1\nContent-Length: {}\n\n", text)).content_length,
            expected,
            "{:?}",
            text
        );
    }
}

#[test]
fn the_end_of_the_headers_is_the_first_empty_line() {
    assert_eq!(App::find_headers_end(b"GET / HTTP/1.1\r\n\r\n"), Some(14));
    assert_eq!(App::find_headers_end(b"\r\n\r\n"), Some(0));
    assert_eq!(App::find_headers_end(b"a\r\n\r\nb\r\n\r\n"), Some(1));
    assert_eq!(App::find_headers_end(b"a\r\n\r"), None);
    assert_eq!(App::find_headers_end(b"a\n\nb"), None);
    assert_eq!(App::find_headers_end(b"\r\n\r"), None);
    assert_eq!(App::find_headers_end(b""), None);
    assert_eq!(App::find_headers_end(b"\r\r\n\r\n"), Some(1));
}

#[test]
fn the_announced_length_is_found_without_regard_to_case() {
    assert_eq!(App::get_content_length("GET / HTTP/1.1\r\nContent-Length: 12\r\n\r\n"), 12);
    assert_eq!(App::get_content_length("content-length:7"), 7);
    assert_eq!(App::get_content_length("CONTENT-LENGTH:   7  \r\nContent-Length: 9"), 7);
    assert_eq!(App::get_content_length("Content-Length: x\r\nContent-Length: 9"), 0);
    assert_eq!(App::get_content_length("Content-Length : 9"), 0);
    assert_eq!(App::get_content_length(" Content-Length: 9"), 0);
    assert_eq!(App::get_content_length("Host: a\r\nX: y"), 0);
    assert_eq!(App::get_content_length(""), 0);
    assert_eq!(App::get_content_length("Content-Length:"), 0);
    assert_eq!(App::get_content_length("Content-Length: +5"), 5);
}

#[test]
fn the_announced_length_is_what_std_would_find() {
    let texts = [
        "Content-Length: 12",
        "content-LENGTH:3\nx",
        "Content\u{2d}Length: 4",
        "\u{212a}ontent-length: 4",
        "Content-Length\u{ff1a} 4",
        "C\u{4f}NTENT-LENGTH:\u{a0}8\u{a0}",
        "A: b\r\nContent-Length: 18446744073709551616",
    ];
    for text in texts {
        let mut expected = 0;
        for line in text.lines() {
            if line.to_lowercase().starts_with("content-length:") {
                expected = line[15..].trim().parse().unwrap_or(0);
                break;
            }
        }
        assert_eq!(App::get_content_length(text), expected, "{:?}", text);
    }
}
