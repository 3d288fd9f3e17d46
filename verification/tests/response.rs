use mhttp::headers::Headers;
use mhttp::server::{HttpResponse, Respondable, StatusCode};
use mhttp::text::push_decimal;

#[test]
fn status_codes_have_their_numbers() {
    assert_eq!(StatusCode::OK.as_u16(), 200);
    assert_eq!(StatusCode::NotFound.as_u16(), 404);
    assert_eq!(StatusCode::BadRequest.as_u16(), 400);
    assert_eq!(StatusCode::InternalServerError.as_u16(), 500);
}

#[test]
fn status_codes_have_their_reason_phrases() {
    assert_eq!(StatusCode::OK.reason_phrase(), "OK");
    assert_eq!(StatusCode::NotFound.reason_phrase(), "Not Found");
    assert_eq!(StatusCode::BadRequest.reason_phrase(), "Bad Request");
    assert_eq!(StatusCode::InternalServerError.reason_phrase(), "Internal Server Error");
}

#[test]
fn a_new_response_announces_the_length_of_its_body() {
    let response = HttpResponse::new(StatusCode::OK, "Hello".to_string());
    assert_eq!(response.version, "HTTP/1.1");
    assert_eq!(response.status, StatusCode::OK);
    assert_eq!(response.status_message, "OK");
    assert_eq!(response.body, "Hello");
    assert_eq!(response.headers.len(), 1);
    assert_eq!(response.headers.get("Content-Length"), Some(&"5".to_string()));
}

#[test]
fn the_length_counts_bytes_not_characters() {
    let response = HttpResponse::new(StatusCode::OK, "h\u{e9}llo \u{1F600}".to_string());
    assert_eq!(response.headers.get("Content-Length"), Some(&"11".to_string()));
    let response = HttpResponse::new(StatusCode::OK, String::new());
    assert_eq!(response.headers.get("Content-Length"), Some(&"0".to_string()));
    let response = HttpResponse::new(StatusCode::OK, "x".repeat(1234));
    assert_eq!(response.headers.get("Content-Length"), Some(&"1234".to_string()));
}

#[test]
fn a_response_is_sent_as_status_line_headers_and_body() {
    let response = HttpResponse::new(StatusCode::NotFound, "Not Found".to_string());
    assert_eq!(
        response.to_string(),
        "HTTP/1.1 404 Not Found\r\nContent-Length: 9\r\n\r\nNot Found"
    );
    let response = HttpResponse::new(StatusCode::OK, String::new());
    assert_eq!(response.to_string(), "HTTP/1.1 200 OK\r\nContent-Length: 0\r\n\r\n");
}

#[test]
fn headers_are_sent_in_the_order_in_which_they_were_set() {
    let mut response = HttpResponse::new(StatusCode::InternalServerError, "oops".to_string());
    response.headers.insert("Content-Type".to_string(), "text/plain".to_string());
    response.headers.insert("X-A".to_string(), "1".to_string());
    response.headers.insert("Content-Length".to_string(), "4".to_string());
    response.headers.insert("X-A".to_string(), "2".to_string());
    response.version = "HTTP/1.0".to_string();
    response.status_message = "Oops".to_string();
    assert_eq!(
        response.to_string(),
        "HTTP/1.0 500 Oops\r\nContent-Length: 4\r\nContent-Type: text/plain\r\nX-A: 2\r\n\r\noops"
    );
}

#[test]
fn the_default_response_is_ok_and_empty() {
    let response = HttpResponse::default();
    assert_eq!(response.status, StatusCode::OK);
    assert_eq!(response.body, "");
    assert_eq!(response.to_string(), HttpResponse::new(StatusCode::OK, String::new()).to_string());
}

#[test]
fn a_response_can_be_cloned() {
    let mut response = HttpResponse::new(StatusCode::BadRequest, "no".to_string());
    response.headers.insert("A".to_string(), "b".to_string());
    let copy = response.clone();
    assert_eq!(copy.to_string(), response.to_string());
    assert_eq!(copy.status, StatusCode::BadRequest);
}

#[test]
fn texts_respond_with_status_ok() {
    let response = "Hello".into_response();
    assert_eq!(response.status, StatusCode::OK);
    assert_eq!(response.body, "Hello");
    let response = String::from("World").into_response();
    assert_eq!(response.status, StatusCode::OK);
    assert_eq!(response.body, "World");
    assert_eq!(response.headers.get("Content-Length"), Some(&"5".to_string()));
}

#[test]
fn a_response_responds_with_itself() {
    let response = HttpResponse::new(StatusCode::NotFound, "gone".to_string()).into_response();
    assert_eq!(response.status, StatusCode::NotFound);
    assert_eq!(response.body, "gone");
}

#[test]
fn a_failure_responds_with_status_500() {
    let ok: Result<&str, String> = Ok("fine");
    let response = ok.into_response();
    assert_eq!(response.status, StatusCode::OK);
    assert_eq!(response.body, "fine");
    let failed: Result<&str, String> = Err("broken".to_string());
    let response = failed.into_response();
    assert_eq!(response.status, StatusCode::InternalServerError);
    assert_eq!(response.status_message, "Internal Server Error");
    assert_eq!(response.body, "broken");
}

#[test]
fn nothing_responds_with_an_empty_body() {
    let response = ().into_response();
    assert_eq!(response.status, StatusCode::OK);
    assert_eq!(response.body, "");
}

#[test]
fn headers_hold_each_name_once() {
    let mut headers = Headers::new();
    assert_eq!(headers.len(), 0);
    assert_eq!(headers.get("A"), None);
    assert_eq!(headers.insert("A".to_string(), "1".to_string()), None);
    assert_eq!(headers.insert("B".to_string(), "2".to_string()), None);
    assert_eq!(headers.insert("A".to_string(), "3".to_string()), Some("1".to_string()));
    assert_eq!(headers.insert("a".to_string(), "4".to_string()), None);
    assert_eq!(headers.len(), 3);
    assert_eq!(headers.get("A"), Some(&"3".to_string()));
    assert_eq!(headers.get("B"), Some(&"2".to_string()));
    assert_eq!(headers.get("a"), Some(&"4".to_string()));
    assert_eq!(headers.entry(0), Some((&"A".to_string(), &"3".to_string())));
    assert_eq!(headers.entry(1), Some((&"B".to_string(), &"2".to_string())));
    assert_eq!(headers.entry(2), Some((&"a".to_string(), &"4".to_string())));
    assert_eq!(headers.entry(3), None);
    let copy = headers.clone();
    assert_eq!(copy.len(), 3);
    assert_eq!(copy.get("A"), Some(&"3".to_string()));
}

#[test]
fn numbers_are_written_in_decimal() {
    for n in [0usize, 1, 9, 10, 11, 99, 100, 101, 65535, 1234567890, usize::MAX] {
        let mut out = String::from("n=");
        push_decimal(&mut out, n);
        assert_eq!(out, format!("n={}", n));
    }
}
