//! Whole HTTP messages: a start line, an ordered header section, and
//! a raw byte body, converted to and from wire bytes.

use vstd::prelude::*;

use crate::header_field::lemma_header_field_round_trip;
use crate::header_field::parse_header_field;
use crate::header_field::serialize_header_field;
use crate::header_field::wf_header_field;
use crate::header_field::HeaderField;
use crate::header_field::HeaderFieldView;
use crate::http::ParseError;
use crate::http::ErrorToHTTP;
use crate::http::HTTP;
use crate::start_line::lemma_start_line_round_trip;
use crate::start_line::parse_start_line;
use crate::start_line::serialize_start_line;
use crate::start_line::wf_start_line;
use crate::start_line::StartLine;
use crate::start_line::StartLineView;
use crate::text::chars_of;
use crate::text::copy_range;
use crate::text::crlf;
use crate::text::extend_chars;
use crate::text::lemma_join_split;
use crate::text::lemma_split_prepend_crlf;
use crate::text::no_crlf;
use crate::text::join;
use crate::text::join_seq;
use crate::text::split;
use crate::text::split_seq;
use crate::text::string_of;
use vstd::string::StrSliceExecFns;
use vstd::utf8::decode_utf8;
use vstd::utf8::encode_utf8;
use vstd::utf8::valid_utf8;

verus! {

/// The mathematical model of a message.
pub struct MessageView {
    pub start_line: StartLineView,
    pub header_fields: Seq<HeaderFieldView>,
    pub message_body: Seq<u8>,
}

/// A structured HTTP message.
#[derive(Debug, Clone)]
pub struct MessageHTTP {
    /// The first line of the message, request or status form.
    pub start_line: StartLine,
    /// The header fields, in order of appearance; duplicates allowed.
    pub header_fields: Vec<HeaderField>,
    /// The bytes making up the body of the message, verbatim.
    pub message_body: Vec<u8>,
}

impl View for MessageHTTP {
    type V = MessageView;

    open spec fn view(&self) -> MessageView {
        MessageView {
            start_line: self.start_line@,
            header_fields: self.header_fields@.map_values(|h: HeaderField| h@),
            message_body: self.message_body@,
        }
    }
}

/// The number of leading non-empty lines: the length of a header
/// section that ends at the first exactly-empty line.
pub open spec fn header_count(lines: Seq<Seq<char>>) -> int
    decreases lines.len(),
{
    if lines.len() == 0 || lines[0].len() == 0 {
        0
    } else {
        1 + header_count(lines.skip(1))
    }
}

/// The parse of consecutive header lines: every line must parse, and
/// the first failure aborts the whole parse.
pub open spec fn parse_headers(hlines: Seq<Seq<char>>) -> Result<Seq<HeaderFieldView>, ParseError>
    decreases hlines.len(),
{
    if hlines.len() == 0 {
        Ok(Seq::<HeaderFieldView>::empty())
    } else {
        match parse_header_field(hlines[0]) {
            Err(e) => Err(e),
            Ok(h) => match parse_headers(hlines.skip(1)) {
                Err(e) => Err(e),
                Ok(rest) => Ok(seq![h] + rest),
            },
        }
    }
}

/// The parse of a whole message from text. The text divides into
/// lines at each two-character separator; the first line is the start
/// line, the following lines up to the first exactly-empty line are
/// header fields, and everything strictly after that empty line,
/// rejoined with the same separator, is the body, encoded back to
/// bytes. Without a terminating empty line, or with nothing after it,
/// the body is empty. Any line failure aborts the whole parse, and
/// empty text, which holds no line at all, has no start line.
pub open spec fn parse_message(text: Seq<char>) -> Result<MessageView, ParseError> {
    if text.len() == 0 {
        Err(ParseError::NoStartLine)
    } else {
        parse_message_lines(text)
    }
}

/// The parse of non-empty message text, line by line.
pub open spec fn parse_message_lines(text: Seq<char>) -> Result<MessageView, ParseError> {
    let lines = split_seq(text, crlf());
    match parse_start_line(lines[0]) {
        Err(e) => Err(e),
        Ok(start) => {
            let n = header_count(lines.skip(1));
            match parse_headers(lines.subrange(1, 1 + n)) {
                Err(e) => Err(e),
                Ok(headers) => Ok(MessageView {
                    start_line: start,
                    header_fields: headers,
                    message_body: if 1 + n < lines.len() {
                        encode_utf8(join_seq(lines.skip(2 + n), crlf()))
                    } else {
                        Seq::<u8>::empty()
                    },
                }),
            }
        },
    }
}

/// The parse of a message from raw bytes: bytes that are not valid
/// UTF-8 text are rejected outright.
pub open spec fn parse_message_bytes(bytes: Seq<u8>) -> Result<MessageView, ParseError> {
    if valid_utf8(bytes) {
        parse_message(decode_utf8(bytes))
    } else {
        Err(ParseError::InvalidEncoding)
    }
}

/// A `header_count` is pinned down by which lines are non-empty.
proof fn lemma_header_count_value(lines: Seq<Seq<char>>, c: int)
    requires
        0 <= c <= lines.len(),
        forall|j: int| 0 <= j < c ==> #[trigger] lines[j].len() > 0,
        c < lines.len() ==> lines[c].len() == 0,
    ensures
        header_count(lines) == c,
    decreases c,
{
    if c > 0 {
        lemma_header_count_value(lines.skip(1), c - 1);
    }
}

/// A header section counts at least its known non-empty prefix.
proof fn lemma_header_count_ge(lines: Seq<Seq<char>>, c: int)
    requires
        0 <= c <= lines.len(),
        forall|j: int| 0 <= j < c ==> #[trigger] lines[j].len() > 0,
    ensures
        header_count(lines) >= c,
        header_count(lines) <= lines.len(),
    decreases lines.len(),
{
    if lines.len() > 0 && lines[0].len() > 0 {
        if c > 0 {
            lemma_header_count_ge(lines.skip(1), c - 1);
        } else {
            lemma_header_count_ge(lines.skip(1), 0);
        }
    }
}

/// Header lines that all parse yield exactly their parses, in order.
proof fn lemma_parse_headers_ok(hl: Seq<Seq<char>>, hs: Seq<HeaderFieldView>)
    requires
        hl.len() == hs.len(),
        forall|j: int| 0 <= j < hl.len() ==> #[trigger] parse_header_field(hl[j]) == Ok::<
            HeaderFieldView,
            ParseError,
        >(hs[j]),
    ensures
        parse_headers(hl) == Ok::<Seq<HeaderFieldView>, ParseError>(hs),
    decreases hl.len(),
{
    if hl.len() == 0 {
        assert(hs =~= Seq::<HeaderFieldView>::empty());
    } else {
        assert(forall|j: int|
            0 <= j < hl.skip(1).len() ==> #[trigger] parse_headers(hl.skip(1)) == parse_headers(
                hl.skip(1),
            ) && hl.skip(1)[j] == hl[j + 1] && hs.skip(1)[j] == hs[j + 1]);
        lemma_parse_headers_ok(hl.skip(1), hs.skip(1));
        assert(seq![hs[0]] + hs.skip(1) =~= hs);
    }
}

/// The first malformed header line decides the error of the section.
proof fn lemma_parse_headers_err(hl: Seq<Seq<char>>, i: int, e: ParseError)
    requires
        0 <= i < hl.len(),
        forall|j: int| 0 <= j < i ==> #[trigger] parse_header_field(hl[j]) is Ok,
        parse_header_field(hl[i]) == Err::<HeaderFieldView, ParseError>(e),
    ensures
        parse_headers(hl) == Err::<Seq<HeaderFieldView>, ParseError>(e),
    decreases i,
{
    if i > 0 {
        assert(forall|j: int|
            0 <= j < hl.skip(1).len() ==> hl.skip(1)[j] == hl[j + 1]);
        lemma_parse_headers_err(hl.skip(1), i - 1, e);
    }
}

impl MessageHTTP {
    /// A message built from the given parts, exactly as passed.
    pub fn new(start_line: StartLine, header_fields: Vec<HeaderField>, message_body: Vec<u8>) -> (m:
        MessageHTTP)
        ensures
            m.start_line == start_line,
            m.header_fields == header_fields,
            m.message_body == message_body,
    {
        MessageHTTP { start_line, header_fields, message_body }
    }

    /// Parses the passed text as a whole message.
    pub fn from(msg: &str) -> (r: Result<MessageHTTP, ParseError>)
        ensures
            match parse_message(msg@) {
                Ok(m) => r matches Ok(x) && x@ == m,
                Err(e) => r matches Err(e2) && e2 == e,
            },
    {
        let cs = chars_of(msg);
        if cs.len() == 0 {
            return Err(ParseError::NoStartLine);
        }
        let mut sep: Vec<char> = Vec::new();
        sep.push('\r');
        sep.push('\n');
        proof {
            assert(sep@ =~= crlf());
        }
        let lines = split(cs.as_slice(), sep.as_slice());
        let ghost dv = split_seq(msg@, crlf());
        proof {
            crate::text::lemma_split_len(msg@, crlf());
            assert(lines@[0].deep_view() =~= lines@[0]@);
        }
        let n = lines.len();
        let line0 = string_of(copy_range(lines[0].as_slice(), 0, lines[0].len()));
        proof {
            assert(line0@ =~= dv[0]);
        }
        let start_line = match StartLine::from(line0.as_str()) {
            Ok(sl) => sl,
            Err(e) => {
                return Err(e);
            },
        };
        let mut header_fields: Vec<HeaderField> = Vec::new();
        let mut k: usize = 1;
        while k < n && lines[k].len() > 0
            invariant
                1 <= k <= n == lines@.len(),
                dv == split_seq(msg@, crlf()),
                lines.deep_view() == dv,
                parse_start_line(dv[0]) is Ok,
                start_line@ == parse_start_line(dv[0]).unwrap(),
                header_fields@.len() == k - 1,
                forall|j: int| 1 <= j < k ==> #[trigger] dv[j].len() > 0,
                forall|j: int|
                    0 <= j < k - 1 ==> #[trigger] parse_header_field(dv[1 + j]) == Ok::<
                        HeaderFieldView,
                        ParseError,
                    >(header_fields@.map_values(|h: HeaderField| h@)[j]),
            decreases n - k,
        {
            proof {
                assert(lines@[k as int].deep_view() =~= lines@[k as int]@);
            }
            let linek = string_of(copy_range(lines[k].as_slice(), 0, lines[k].len()));
            proof {
                assert(linek@ =~= dv[k as int]);
            }
            let ghost old_hv = header_fields@.map_values(|h: HeaderField| h@);
            match HeaderField::from(linek.as_str()) {
                Ok(hf) => {
                    header_fields.push(hf);
                    proof {
                        assert(header_fields@.map_values(|h: HeaderField| h@) =~= old_hv.push(
                            hf@,
                        ));
                    }
                },
                Err(e) => {
                    proof {
                        let hc = header_count(dv.skip(1));
                        assert(dv[k as int].len() > 0);
                        assert(forall|j: int|
                            0 <= j < k ==> #[trigger] dv.skip(1)[j] == dv[1 + j]);
                        assert(forall|j: int| 0 <= j < k ==> #[trigger] dv.skip(1)[j].len() > 0);
                        lemma_header_count_ge(dv.skip(1), k as int);
                        let hl = dv.subrange(1, 1 + hc);
                        assert(forall|j: int| 0 <= j < hl.len() ==> #[trigger] hl[j] == dv[1 + j]);
                        assert(parse_header_field(hl[k - 1]) == Err::<HeaderFieldView, ParseError>(
                            e,
                        ));
                        assert(forall|j: int|
                            0 <= j < k - 1 ==> #[trigger] parse_header_field(hl[j]) is Ok);
                        lemma_parse_headers_err(hl, k - 1, e);
                    }
                    return Err(e);
                },
            }
            k = k + 1;
        }
        proof {
            assert(forall|j: int|
                0 <= j < k - 1 ==> dv.skip(1)[j] == dv[1 + j] && #[trigger] dv.skip(1)[j].len()
                    > 0);
            if k < n {
                assert(dv.skip(1)[k - 1] == dv[k as int]);
            }
            lemma_header_count_value(dv.skip(1), k - 1);
            let hl = dv.subrange(1, k as int);
            assert(forall|j: int| 0 <= j < hl.len() ==> hl[j] == dv[1 + j]);
            lemma_parse_headers_ok(hl, header_fields@.map_values(|h: HeaderField| h@));
        }
        let message_body: Vec<u8> = if k < n {
            let joined = join(&lines, k + 1, sep.as_slice());
            let body_text = string_of(joined);
            proof {
                assert(lines.deep_view().skip(k + 1) =~= dv.skip(k + 1));
            }
            body_text.as_str().as_bytes_vec()
        } else {
            Vec::new()
        };
        proof {
            if k == n {
                assert(message_body@ =~= Seq::<u8>::empty());
            }
        }
        Ok(MessageHTTP { start_line, header_fields, message_body })
    }

    /// Parses the passed bytes as a whole message.
    pub fn from_utf8(msg: Vec<u8>) -> (r: Result<MessageHTTP, ParseError>)
        ensures
            match parse_message_bytes(msg@) {
                Ok(m) => r matches Ok(x) && x@ == m,
                Err(e) => r matches Err(e2) && e2 == e,
            },
    {
        let ghost b = msg@;
        match decode_utf8_bytes(msg) {
            None => Err(ParseError::InvalidEncoding),
            Some(s) => MessageHTTP::from(s.as_str()),
        }
    }
}

/// Relies on `String::from_utf8`: it accepts exactly the valid UTF-8
/// byte sequences and decodes them to the characters they encode.
#[verifier::external_body]
fn decode_utf8_bytes(bytes: Vec<u8>) -> (r: Option<String>)
    ensures
        r is Some <==> valid_utf8(bytes@),
        r matches Some(s) ==> s@ == decode_utf8(bytes@),
{
    match String::from_utf8(bytes) {
        Ok(s) => Some(s),
        Err(_) => None,
    }
}

impl PartialEq for MessageHTTP {
    fn eq(&self, other: &MessageHTTP) -> bool {
        if !(self.start_line == other.start_line) {
            return false;
        }
        let n = self.header_fields.len();
        if n != other.header_fields.len() {
            proof {
                assert(self@.header_fields.len() == self.header_fields@.len());
                assert(other@.header_fields.len() == other.header_fields@.len());
            }
            return false;
        }
        let mut i: usize = 0;
        while i < n
            invariant
                0 <= i <= n == self.header_fields@.len(),
                n == other.header_fields@.len(),
                forall|j: int| 0 <= j < i ==> #[trigger] self.header_fields@[j]@
                    == other.header_fields@[j]@,
            decreases n - i,
        {
            let a = &self.header_fields[i];
            let b = &other.header_fields[i];
            if !(*a == *b) {
                proof {
                    assert(self@.header_fields[i as int] == self.header_fields@[i as int]@);
                    assert(other@.header_fields[i as int] == other.header_fields@[i as int]@);
                }
                return false;
            }
            i = i + 1;
        }
        let m = self.message_body.len();
        if m != other.message_body.len() {
            proof {
                assert(self@.message_body.len() == self.message_body@.len());
                assert(other@.message_body.len() == other.message_body@.len());
            }
            return false;
        }
        let mut i: usize = 0;
        while i < m
            invariant
                0 <= i <= m == self.message_body@.len(),
                m == other.message_body@.len(),
                forall|j: int| 0 <= j < i ==> self.message_body@[j] == other.message_body@[j],
            decreases m - i,
        {
            if self.message_body[i] != other.message_body[i] {
                return false;
            }
            i = i + 1;
        }
        proof {
            assert(self@.header_fields =~= other@.header_fields);
            assert(self@.message_body =~= other@.message_body);
        }
        true
    }
}

impl vstd::std_specs::cmp::PartialEqSpecImpl for MessageHTTP {
    open spec fn obeys_eq_spec() -> bool {
        true
    }

    open spec fn eq_spec(&self, other: &MessageHTTP) -> bool {
        self@ == other@
    }
}

impl Eq for MessageHTTP {

}

/// The serialized form of the header section: each field's line
/// followed by the line separator.
pub open spec fn serialize_headers(hs: Seq<HeaderFieldView>) -> Seq<char>
    decreases hs.len(),
{
    if hs.len() == 0 {
        Seq::<char>::empty()
    } else {
        serialize_header_field(hs[0]) + crlf() + serialize_headers(hs.skip(1))
    }
}

proof fn lemma_serialize_headers_snoc(hs: Seq<HeaderFieldView>, h: HeaderFieldView)
    ensures
        serialize_headers(hs.push(h)) == serialize_headers(hs) + serialize_header_field(h)
            + crlf(),
    decreases hs.len(),
{
    if hs.len() == 0 {
        assert(hs =~= Seq::<HeaderFieldView>::empty());
        assert(hs.push(h)[0] == h);
        assert(hs.push(h).skip(1) =~= Seq::<HeaderFieldView>::empty());
        assert(serialize_headers(Seq::<HeaderFieldView>::empty()) == Seq::<char>::empty());
        assert(serialize_headers(hs.push(h)) =~= serialize_headers(hs) + serialize_header_field(h)
            + crlf());
    } else {
        assert(hs.push(h)[0] == hs[0]);
        assert(hs.push(h).skip(1) =~= hs.skip(1).push(h));
        lemma_serialize_headers_snoc(hs.skip(1), h);
        assert(serialize_headers(hs.push(h)) == serialize_header_field(hs[0]) + crlf()
            + serialize_headers(hs.skip(1).push(h)));
        assert(serialize_headers(hs) == serialize_header_field(hs[0]) + crlf() + serialize_headers(
            hs.skip(1),
        ));
        assert(serialize_headers(hs.push(h)) =~= serialize_headers(hs) + serialize_header_field(h)
            + crlf());
    }
}

/// The serialized form of a whole message: the start line, each
/// header line, and an empty line, each followed by the separator,
/// then the body text.
pub open spec fn serialize_message(m: MessageView) -> Seq<char> {
    serialize_start_line(m.start_line) + crlf() + serialize_headers(m.header_fields) + crlf()
        + decode_utf8(m.message_body)
}

fn copy_bytes(s: &[u8]) -> (v: Vec<u8>)
    ensures
        v@ == s@,
{
    let n = s.len();
    let mut v: Vec<u8> = Vec::new();
    let mut i: usize = 0;
    while i < n
        invariant
            0 <= i <= n == s@.len(),
            v@ == s@.take(i as int),
        decreases n - i,
    {
        v.push(s[i]);
        i = i + 1;
        proof {
            assert(v@ =~= s@.take(i as int));
        }
    }
    proof {
        assert(s@.take(n as int) =~= s@);
    }
    v
}

impl HTTP for MessageHTTP {
    open spec fn http_form(&self) -> Seq<char> {
        serialize_message(self@)
    }

    open spec fn http_serializable(&self) -> bool {
        valid_utf8(self@.message_body)
    }

    fn to_http(&self) -> (r: Result<String, ErrorToHTTP>) {
        let start = match self.start_line.to_http() {
            Ok(s) => s,
            Err(err) => {
                proof {
                    assert(false);
                }
                return Err(err);
            },
        };
        let mut v = chars_of(start.as_str());
        v.push('\r');
        v.push('\n');
        proof {
            assert(self@.header_fields.take(0) =~= Seq::<HeaderFieldView>::empty());
            assert(v@ =~= serialize_start_line(self@.start_line) + crlf() + serialize_headers(
                self@.header_fields.take(0),
            ));
        }
        let n = self.header_fields.len();
        let mut i: usize = 0;
        while i < n
            invariant
                0 <= i <= n == self.header_fields@.len(),
                v@ == serialize_start_line(self@.start_line) + crlf() + serialize_headers(
                    self@.header_fields.take(i as int),
                ),
            decreases n - i,
        {
            let hline = match self.header_fields[i].to_http() {
                Ok(s) => s,
                Err(err) => {
                    proof {
                        assert(false);
                    }
                    return Err(err);
                },
            };
            let hchars = chars_of(hline.as_str());
            extend_chars(&mut v, hchars.as_slice());
            v.push('\r');
            v.push('\n');
            proof {
                lemma_serialize_headers_snoc(
                    self@.header_fields.take(i as int),
                    self@.header_fields[i as int],
                );
                assert(self@.header_fields.take(i + 1) =~= self@.header_fields.take(
                    i as int,
                ).push(self@.header_fields[i as int]));
                assert(self@.header_fields[i as int] == self.header_fields@[i as int]@);
                assert(v@ =~= serialize_start_line(self@.start_line) + crlf() + serialize_headers(
                    self@.header_fields.take(i + 1),
                ));
            }
            i = i + 1;
        }
        v.push('\r');
        v.push('\n');
        let body_copy = copy_bytes(self.message_body.as_slice());
        match decode_utf8_bytes(body_copy) {
            None => Err(ErrorToHTTP),
            Some(body_text) => {
                let bchars = chars_of(body_text.as_str());
                extend_chars(&mut v, bchars.as_slice());
                proof {
                    assert(self@.header_fields.take(n as int) =~= self@.header_fields);
                    assert(v@ =~= serialize_message(self@));
                }
                Ok(string_of(v))
            },
        }
    }
}

/// Whether a message is in the normalized form the parser yields:
/// the start line and every header field normalized, their serialized
/// lines free of the line separator, and the body valid UTF-8 text.
pub open spec fn wf_message(m: MessageView) -> bool {
    &&& wf_start_line(m.start_line)
    &&& no_crlf(serialize_start_line(m.start_line))
    &&& (forall|j: int|
        0 <= j < m.header_fields.len() ==> wf_header_field(#[trigger] m.header_fields[j])
            && no_crlf(serialize_header_field(m.header_fields[j])))
    &&& valid_utf8(m.message_body)
}

/// The lines of a serialized header section followed by a terminator
/// and arbitrary rest: one line per field, then the empty line, then
/// the lines of the rest.
proof fn lemma_lines_of_headers(hs: Seq<HeaderFieldView>, rest: Seq<char>)
    requires
        forall|j: int|
            0 <= j < hs.len() ==> no_crlf(#[trigger] serialize_header_field(hs[j])),
    ensures
        split_seq(serialize_headers(hs) + crlf() + rest, crlf()) == hs.map_values(
            |h: HeaderFieldView| serialize_header_field(h),
        ) + seq![Seq::<char>::empty()] + split_seq(rest, crlf()),
    decreases hs.len(),
{
    let hlines = hs.map_values(|h: HeaderFieldView| serialize_header_field(h));
    if hs.len() == 0 {
        assert(serialize_headers(hs) + crlf() + rest =~= Seq::<char>::empty() + crlf() + rest);
        lemma_split_prepend_crlf(Seq::<char>::empty(), rest);
        assert(split_seq(serialize_headers(hs) + crlf() + rest, crlf()) =~= hlines + seq![
            Seq::<char>::empty(),
        ] + split_seq(rest, crlf()));
    } else {
        let h0 = serialize_header_field(hs[0]);
        let inner = serialize_headers(hs.skip(1)) + crlf() + rest;
        assert(serialize_headers(hs) + crlf() + rest =~= h0 + crlf() + inner);
        lemma_split_prepend_crlf(h0, inner);
        assert(forall|j: int|
            0 <= j < hs.skip(1).len() ==> #[trigger] hs.skip(1)[j] == hs[j + 1]);
        lemma_lines_of_headers(hs.skip(1), rest);
        assert(split_seq(serialize_headers(hs) + crlf() + rest, crlf()) =~= hlines + seq![
            Seq::<char>::empty(),
        ] + split_seq(rest, crlf()));
    }
}

/// Parsing the serialized form of a normalized message yields the
/// message back, body bytes included: serialization loses nothing.
pub proof fn lemma_message_round_trip(m: MessageView)
    requires
        wf_message(m),
    ensures
        parse_message(serialize_message(m)) == Ok::<MessageView, ParseError>(m),
{
    let sl = serialize_start_line(m.start_line);
    let body_str = decode_utf8(m.message_body);
    let hpart = serialize_headers(m.header_fields) + crlf() + body_str;
    let text = serialize_message(m);
    assert(text =~= sl + crlf() + hpart);
    assert(text.len() > 0);
    lemma_split_prepend_crlf(sl, hpart);
    lemma_lines_of_headers(m.header_fields, body_str);
    let hlines = m.header_fields.map_values(|h: HeaderFieldView| serialize_header_field(h));
    let lines = split_seq(text, crlf());
    let hn = m.header_fields.len() as int;
    assert(lines == seq![sl] + (hlines + seq![Seq::<char>::empty()] + split_seq(
        body_str,
        crlf(),
    )));
    crate::text::lemma_split_len(body_str, crlf());
    assert(lines[0] == sl);
    lemma_start_line_round_trip(m.start_line);
    assert forall|j: int| 0 <= j < hn implies #[trigger] lines.skip(1)[j].len() > 0 by {
        assert(lines.skip(1)[j] == hlines[j]);
        assert(hlines[j] == serialize_header_field(m.header_fields[j]));
    }
    assert(lines.skip(1)[hn] == Seq::<char>::empty());
    lemma_header_count_value(lines.skip(1), hn);
    let hl = lines.subrange(1, 1 + hn);
    assert(hl =~= hlines);
    assert forall|j: int|
        0 <= j < hl.len() implies #[trigger] parse_header_field(hl[j]) == Ok::<
        HeaderFieldView,
        ParseError,
    >(m.header_fields[j]) by {
        assert(hl[j] == serialize_header_field(m.header_fields[j]));
        lemma_header_field_round_trip(m.header_fields[j]);
    }
    lemma_parse_headers_ok(hl, m.header_fields);
    assert(1 + hn < lines.len());
    assert(lines.skip(2 + hn) =~= split_seq(body_str, crlf()));
    lemma_join_split(body_str, crlf());
    vstd::utf8::decode_utf8_encode_utf8(m.message_body);
    assert(encode_utf8(join_seq(lines.skip(2 + hn), crlf())) == m.message_body);
    assert(parse_message(text) == Ok::<MessageView, ParseError>(
        MessageView {
            start_line: m.start_line,
            header_fields: m.header_fields,
            message_body: m.message_body,
        },
    ));
}

} // verus!
