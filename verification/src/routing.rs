//! The response decision of the example connection handler: which
//! status line and which resource file answer a parsed message.

use vstd::prelude::*;

use crate::message::MessageHTTP;
use crate::message::MessageView;
use crate::start_line::StartLineView;
use vstd::string::StringExecFns;

verus! {

/// The status line and resource path that answer a message: a `GET`
/// request is served `html/index.html` for the root target and
/// `html<target>.html` otherwise; any other message is answered with
/// the not-found line and the not-found page.
pub open spec fn route_spec(m: MessageView) -> (Seq<char>, Seq<char>) {
    match m.start_line {
        StartLineView::Request { method, target, .. } => {
            if method == "GET"@ {
                if target == "/"@ {
                    ("HTTP/1.1 200 OK\r\n\r\n"@, "html/index.html"@)
                } else {
                    ("HTTP/1.1 200 OK\r\n\r\n"@, "html"@ + target + ".html"@)
                }
            } else {
                ("HTTP/1.1 404 NOT FOUND\r\n\r\n"@, "html/404.html"@)
            }
        },
        StartLineView::Status { .. } => ("HTTP/1.1 404 NOT FOUND\r\n\r\n"@, "html/404.html"@),
    }
}

/// The status line and resource path that answer `message`.
pub fn route(message: &MessageHTTP) -> (r: (String, String))
    ensures
        r.0@ == route_spec(message@).0,
        r.1@ == route_spec(message@).1,
{
    match message.start_line.request() {
        Some((method, target, _)) => {
            let get = String::from_str("GET");
            if *method == get {
                let root = String::from_str("/");
                if *target == root {
                    (
                        String::from_str("HTTP/1.1 200 OK\r\n\r\n"),
                        String::from_str("html/index.html"),
                    )
                } else {
                    let path = String::from_str("html").concat(target.as_str()).concat(".html");
                    (String::from_str("HTTP/1.1 200 OK\r\n\r\n"), path)
                }
            } else {
                (
                    String::from_str("HTTP/1.1 404 NOT FOUND\r\n\r\n"),
                    String::from_str("html/404.html"),
                )
            }
        },
        None => (
            String::from_str("HTTP/1.1 404 NOT FOUND\r\n\r\n"),
            String::from_str("html/404.html"),
        ),
    }
}

} // verus!
