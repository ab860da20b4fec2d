use web_server::header_field::HeaderField;
use web_server::message::MessageHTTP;
use web_server::start_line::StartLine;

#[test]
fn test_header_field() {
    assert_eq!(
        HeaderField::from("header1:field1").unwrap(),
        HeaderField { name: String::from("header1"), value: String::from("field1") },
        "Test HeaderField::from-1 failed."
    );

    assert_eq!(
        HeaderField::from(" header1:field1 ").unwrap(),
        HeaderField { name: String::from("header1"), value: String::from("field1") },
        "Test HeaderField::from-2 failed."
    );
    assert_eq!(
        HeaderField::from(" header1 : field1 ").unwrap(),
        HeaderField { name: String::from("header1"), value: String::from("field1") },
        "Test HeaderField::from-3 failed."
    );
}

#[test]
fn test_request_line() {
    assert_eq!(
        StartLine::from("get / http/1.1").unwrap(),
        StartLine::RequestLine {
            method: String::from("GET"),
            target: String::from("/"),
            version: String::from("HTTP/1.1"),
        },
        "Test RequestLine::from-1 failed."
    );

    assert_eq!(
        StartLine::from("GET \"/space test\" http/2.1").unwrap(),
        StartLine::RequestLine {
            method: String::from("GET"),
            target: String::from("/space test"),
            version: String::from("HTTP/2.1"),
        },
        "Test RequestLine::from-2 failed."
    );

    assert!(
        StartLine::from("fail \"/space test\" http/2.1").is_err(),
        "Test RequestLine::from-3 failed."
    );

    assert!(
        StartLine::from("fail /space test http/2.1").is_err(),
        "Test RequestLine::from-4 failed."
    );
}

#[test]
fn test_status_line() {
    assert_eq!(
        StartLine::from("http/1.1 000 OK").unwrap(),
        StartLine::StatusLine {
            version: String::from("HTTP/1.1"),
            code: 0,
            reason: Some(String::from("OK")),
        },
        "Test StatusLine::from-1 failed."
    );

    assert_eq!(
        StartLine::from("http/2.1 012 test").unwrap(),
        StartLine::StatusLine {
            version: String::from("HTTP/2.1"),
            code: 12,
            reason: Some(String::from("test")),
        },
        "Test StatusLine::from-2 failed."
    );

    assert_eq!(
        StartLine::from("http/2.1 012 testing with spaces in reason").unwrap(),
        StartLine::StatusLine {
            version: String::from("HTTP/2.1"),
            code: 12,
            reason: Some(String::from("testing with spaces in reason")),
        },
        "Test StatusLine::from-3 failed."
    );

    assert_eq!(
        StartLine::from("http/2.1 012").unwrap(),
        StartLine::StatusLine {
            version: String::from("HTTP/2.1"),
            code: 12,
            reason: None,
        },
        "Test StatusLine::from-4 failed."
    );
}

#[test]
fn test_message_http() {
    assert_eq!(
        MessageHTTP::from(
            "http/1.1 200 OK\r\n name : value \r\n taste : smell \r\n\r\n The red fox jumped\r\nover the lazy dog"
        )
        .unwrap(),
        MessageHTTP {
            start_line: StartLine::StatusLine {
                version: String::from("HTTP/1.1"),
                code: 200,
                reason: Some(String::from("OK")),
            },
            header_fields: vec![
                HeaderField { name: String::from("name"), value: String::from("value") },
                HeaderField { name: String::from("taste"), value: String::from("smell") },
            ],
            message_body: String::from(" The red fox jumped\r\nover the lazy dog").into_bytes(),
        },
        "Test MessageHTTP::from-1 failed."
    );

    assert_eq!(
        MessageHTTP::from("http/1.1 200 OK\r\n name : value \r\n taste : smell \r\n\r\n").unwrap(),
        MessageHTTP {
            start_line: StartLine::StatusLine {
                version: String::from("HTTP/1.1"),
                code: 200,
                reason: Some(String::from("OK")),
            },
            header_fields: vec![
                HeaderField { name: String::from("name"), value: String::from("value") },
                HeaderField { name: String::from("taste"), value: String::from("smell") },
            ],
            message_body: String::from("").into_bytes(),
        },
        "Test MessageHTTP::from-2 failed."
    );

    assert_eq!(
        MessageHTTP::from("http/1.1 200\r\n name : value \r\n taste : smell \r\n\r\n").unwrap(),
        MessageHTTP {
            start_line: StartLine::StatusLine {
                version: String::from("HTTP/1.1"),
                code: 200,
                reason: None,
            },
            header_fields: vec![
                HeaderField { name: String::from("name"), value: String::from("value") },
                HeaderField { name: String::from("taste"), value: String::from("smell") },
            ],
            message_body: String::from("").into_bytes(),
        },
        "Test MessageHTTP::from-3 failed."
    );

    assert_eq!(
        MessageHTTP::from("get / http/1.1\r\n name : value \r\n taste : smell \r\n\r\n").unwrap(),
        MessageHTTP {
            start_line: StartLine::RequestLine {
                method: String::from("GET"),
                target: String::from("/"),
                version: String::from("HTTP/1.1"),
            },
            header_fields: vec![
                HeaderField { name: String::from("name"), value: String::from("value") },
                HeaderField { name: String::from("taste"), value: String::from("smell") },
            ],
            message_body: String::from("").into_bytes(),
        },
        "Test MessageHTTP::from-4 failed."
    );

    assert_eq!(
        MessageHTTP::from(
            "get / http/1.1\r\n name : value \r\n taste : smell \r\n\r\n The quick brown fox\r\njumped over the lazy dog."
        )
        .unwrap(),
        MessageHTTP {
            start_line: StartLine::RequestLine {
                method: String::from("GET"),
                target: String::from("/"),
                version: String::from("HTTP/1.1"),
            },
            header_fields: vec![
                HeaderField { name: String::from("name"), value: String::from("value") },
                HeaderField { name: String::from("taste"), value: String::from("smell") },
            ],
            message_body: String::from(" The quick brown fox\r\njumped over the lazy dog.")
                .into_bytes(),
        },
        "Test MessageHTTP::from-5 failed."
    );
}
