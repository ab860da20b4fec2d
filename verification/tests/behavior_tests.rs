use web_server::header_field::HeaderField;
use web_server::http::ErrorToHTTP;
use web_server::http::ParseError;
use web_server::http::HTTP;
use web_server::lifecycle::Message;
use web_server::lifecycle::PoolControl;
use web_server::lifecycle::PoolPhase;
use web_server::lifecycle::ServerControl;
use web_server::lifecycle::ServerPhase;
use web_server::message::MessageHTTP;
use web_server::routing::route;
use web_server::start_line::StartLine;

#[test]
fn header_keeps_separators_in_value() {
    let h = HeaderField::from(" a : b:c ").unwrap();
    assert_eq!(h.name, "a");
    assert_eq!(h.value, "b:c");
}

#[test]
fn header_without_separator_is_malformed() {
    assert!(matches!(
        HeaderField::from("no separator here"),
        Err(ParseError::MalformedHeader)
    ));
    assert!(matches!(HeaderField::from(""), Err(ParseError::MalformedHeader)));
}

#[test]
fn request_line_plain() {
    assert_eq!(
        StartLine::from("GET / HTTP/1.1").unwrap(),
        StartLine::RequestLine {
            method: String::from("GET"),
            target: String::from("/"),
            version: String::from("HTTP/1.1"),
        }
    );
}

#[test]
fn request_line_quoted_target_keeps_spaces() {
    let sl = StartLine::from("GET \"/space test\" HTTP/1.1").unwrap();
    match sl.request() {
        Some((method, target, version)) => {
            assert_eq!(method, "GET");
            assert_eq!(target, "/space test");
            assert_eq!(version, "HTTP/1.1");
        },
        None => panic!("expected a request line"),
    }
}

#[test]
fn status_line_reason_present_and_absent() {
    assert_eq!(
        StartLine::from("HTTP/1.1 404 Not Found").unwrap(),
        StartLine::StatusLine {
            version: String::from("HTTP/1.1"),
            code: 404,
            reason: Some(String::from("Not Found")),
        }
    );
    assert_eq!(
        StartLine::from("HTTP/1.1 204").unwrap(),
        StartLine::StatusLine { version: String::from("HTTP/1.1"), code: 204, reason: None }
    );
}

#[test]
fn status_line_bad_code_is_rejected() {
    assert!(matches!(
        StartLine::from("HTTP/1.1 4o4 Not Found"),
        Err(ParseError::InvalidStatusCode)
    ));
    assert!(matches!(
        StartLine::from("HTTP/1.1 99999999999 Too Big"),
        Err(ParseError::InvalidStatusCode)
    ));
}

#[test]
fn start_line_single_token_fits_neither_form() {
    assert!(matches!(
        StartLine::from("GET"),
        Err(ParseError::UnknownMethodAndInvalidStatus)
    ));
    assert!(matches!(
        StartLine::from("   "),
        Err(ParseError::UnknownMethodAndInvalidStatus)
    ));
}

#[test]
fn wrong_variant_accessors_return_none() {
    let req = StartLine::from("GET / HTTP/1.1").unwrap();
    assert!(req.status().is_none());
    assert!(req.request().is_some());
    let st = StartLine::from("HTTP/1.1 200 OK").unwrap();
    assert!(st.request().is_none());
    match st.status() {
        Some((version, code, reason)) => {
            assert_eq!(version, "HTTP/1.1");
            assert_eq!(code, 200);
            assert_eq!(reason.as_deref(), Some("OK"));
        },
        None => panic!("expected a status line"),
    }
}

#[test]
fn message_two_headers_two_body_lines_round_trips() {
    let text = "HTTP/1.1 200 OK\r\nname: value\r\ntaste: smell\r\n\r\nfirst line\r\nsecond line";
    let m = MessageHTTP::from(text).unwrap();
    assert_eq!(m.header_fields.len(), 2);
    assert_eq!(m.message_body, b"first line\r\nsecond line".to_vec());
    let re = m.to_http().unwrap();
    assert_eq!(re, text);
    let again = MessageHTTP::from(&re).unwrap();
    assert_eq!(again, m);
}

#[test]
fn message_serialization_normalizes_whitespace() {
    let m = MessageHTTP::from("get / http/1.1\r\n name : value \r\n\r\nbody").unwrap();
    assert_eq!(
        m.to_http().unwrap(),
        "GET / HTTP/1.1\r\nname: value\r\n\r\nbody"
    );
}

#[test]
fn message_quoted_target_round_trips() {
    let text = "GET \"/a b\" HTTP/1.1\r\nh: v\r\n\r\n";
    let m = MessageHTTP::from(text).unwrap();
    let re = m.to_http().unwrap();
    assert_eq!(re, text);
    assert_eq!(MessageHTTP::from(&re).unwrap(), m);
}

#[test]
fn status_code_serialization_drops_leading_zeros() {
    let m = StartLine::from("http/2.1 012 test").unwrap();
    assert_eq!(m.to_http().unwrap(), "HTTP/2.1 12 test");
    let zero = StartLine::from("http/1.1 000 OK").unwrap();
    assert_eq!(zero.to_http().unwrap(), "HTTP/1.1 0 OK");
}

#[test]
fn header_field_serializes_canonically() {
    let h = HeaderField::from(" a : b:c ").unwrap();
    assert_eq!(h.to_http().unwrap(), "a: b:c");
}

#[test]
fn message_with_invalid_body_has_no_http_form() {
    let m = MessageHTTP::new(
        StartLine::from("HTTP/1.1 200 OK").unwrap(),
        vec![],
        vec![0xff, 0xfe],
    );
    assert_eq!(m.to_http(), Err(ErrorToHTTP));
}

#[test]
fn from_utf8_accepts_valid_and_rejects_invalid_bytes() {
    let m = MessageHTTP::from_utf8(b"GET / HTTP/1.1\r\n\r\n".to_vec()).unwrap();
    assert!(m.start_line.request().is_some());
    assert!(m.header_fields.is_empty());
    assert!(matches!(
        MessageHTTP::from_utf8(vec![0xff, 0x00, 0x41]),
        Err(ParseError::InvalidEncoding)
    ));
}

#[test]
fn malformed_header_aborts_message_parse() {
    assert!(matches!(
        MessageHTTP::from("HTTP/1.1 200 OK\r\nbad header line\r\ngood: one\r\n\r\n"),
        Err(ParseError::MalformedHeader)
    ));
}

#[test]
fn bad_start_line_aborts_message_parse() {
    assert!(matches!(
        MessageHTTP::from("HTTP/1.1 abc OK\r\nh: v\r\n\r\n"),
        Err(ParseError::InvalidStatusCode)
    ));
}

#[test]
fn message_without_terminator_has_empty_body() {
    let m = MessageHTTP::from("HTTP/1.1 200 OK\r\nh: v").unwrap();
    assert_eq!(m.header_fields.len(), 1);
    assert!(m.message_body.is_empty());
}

#[test]
fn body_keeps_leading_empty_line() {
    let m = MessageHTTP::from("HTTP/1.1 200 OK\r\n\r\n\r\nhello").unwrap();
    assert!(m.header_fields.is_empty());
    assert_eq!(m.message_body, b"\r\nhello".to_vec());
}

#[test]
fn route_serves_index_page_for_root() {
    let m = MessageHTTP::from("GET / HTTP/1.1\r\n\r\n").unwrap();
    let (status, file) = route(&m);
    assert_eq!(status, "HTTP/1.1 200 OK\r\n\r\n");
    assert_eq!(file, "html/index.html");
}

#[test]
fn route_maps_target_to_html_file() {
    let m = MessageHTTP::from("GET /about HTTP/1.1\r\n\r\n").unwrap();
    let (status, file) = route(&m);
    assert_eq!(status, "HTTP/1.1 200 OK\r\n\r\n");
    assert_eq!(file, "html/about.html");
}

#[test]
fn route_answers_not_found_for_status_messages() {
    let m = MessageHTTP::from("HTTP/1.1 200 OK\r\n\r\n").unwrap();
    let (status, file) = route(&m);
    assert_eq!(status, "HTTP/1.1 404 NOT FOUND\r\n\r\n");
    assert_eq!(file, "html/404.html");
}

#[test]
fn pool_control_walks_its_lifecycle() {
    let mut pc = PoolControl::new(4);
    assert_eq!(pc.phase, PoolPhase::Running);
    assert_eq!(pc.workers, 4);
    assert!(pc.may_submit());
    let signals = pc.begin_shutdown();
    assert_eq!(signals, 4);
    assert_eq!(pc.phase, PoolPhase::ShuttingDown);
    assert!(!pc.may_submit());
    pc.finish();
    assert_eq!(pc.phase, PoolPhase::Terminated);
}

#[test]
fn server_control_walks_its_lifecycle() {
    let mut sc = ServerControl::new();
    assert_eq!(sc.phase, ServerPhase::Starting);
    sc.started();
    assert_eq!(sc.phase, ServerPhase::Running);
    sc.shutdown_requested();
    assert_eq!(sc.phase, ServerPhase::ShutdownRequested);
    sc.joined();
    assert_eq!(sc.phase, ServerPhase::Joined);
}

#[test]
fn control_messages_compare_by_value() {
    assert_eq!(Message::Code(7), Message::Code(7));
    assert_ne!(Message::Code(7), Message::Code(8));
    assert_ne!(Message::Code(0), Message::Shutdown);
    assert_eq!(Message::Shutdown, Message::Shutdown);
}

#[test]
fn request_line_version_may_be_absent() {
    assert_eq!(
        StartLine::from("GET /").unwrap(),
        StartLine::RequestLine {
            method: String::from("GET"),
            target: String::from("/"),
            version: String::from(""),
        }
    );
}

#[test]
fn status_code_fits_in_u32_exactly() {
    assert_eq!(
        StartLine::from("HTTP/1.1 4294967295").unwrap(),
        StartLine::StatusLine {
            version: String::from("HTTP/1.1"),
            code: 4294967295,
            reason: None,
        }
    );
    assert!(matches!(
        StartLine::from("HTTP/1.1 4294967296"),
        Err(ParseError::InvalidStatusCode)
    ));
}

#[test]
fn header_value_only_or_name_only() {
    let nameless = HeaderField::from(":value only").unwrap();
    assert_eq!(nameless.name, "");
    assert_eq!(nameless.value, "value only");
    let valueless = HeaderField::from("name:").unwrap();
    assert_eq!(valueless.name, "name");
    assert_eq!(valueless.value, "");
}

#[test]
fn empty_message_has_no_start_line() {
    assert!(matches!(MessageHTTP::from(""), Err(ParseError::NoStartLine)));
    assert!(matches!(
        MessageHTTP::from_utf8(Vec::new()),
        Err(ParseError::NoStartLine)
    ));
}

#[test]
fn multibyte_text_survives_byte_round_trip() {
    let text = "HTTP/1.1 200 OK\r\nnote: caf\u{e9}\r\n\r\nun caf\u{e9}, s'il vous pla\u{ee}t";
    let m = MessageHTTP::from_utf8(text.as_bytes().to_vec()).unwrap();
    assert_eq!(m.header_fields[0].value, "caf\u{e9}");
    assert_eq!(m.message_body, "un caf\u{e9}, s'il vous pla\u{ee}t".as_bytes().to_vec());
    assert_eq!(m.to_http().unwrap(), text);
}
