//! Header fields of an HTTP message: `name: value` associations,
//! parsed from one header line each.

use vstd::prelude::*;

use crate::http::ErrorToHTTP;
use crate::http::ParseError;
use crate::http::HTTP;
use crate::text::chars_of;
use crate::text::copy_range;
use crate::text::extend_chars;
use crate::text::find_char;
use crate::text::find_from;
use crate::text::lemma_find_char;
use crate::text::string_of;
use crate::text::trim;
use crate::text::trim_spec;

verus! {

/// The mathematical model of a header field: its two trimmed sides.
pub struct HeaderFieldView {
    pub name: Seq<char>,
    pub value: Seq<char>,
}

/// A `name: value` association in the header section of a message.
#[derive(Debug, Clone)]
pub struct HeaderField {
    /// The name associated with the header field.
    pub name: String,
    /// The value associated with the header field.
    pub value: String,
}

impl View for HeaderField {
    type V = HeaderFieldView;

    open spec fn view(&self) -> HeaderFieldView {
        HeaderFieldView { name: self.name@, value: self.value@ }
    }
}

impl PartialEq for HeaderField {
    fn eq(&self, other: &HeaderField) -> bool {
        self.name == other.name && self.value == other.value
    }
}

impl vstd::std_specs::cmp::PartialEqSpecImpl for HeaderField {
    open spec fn obeys_eq_spec() -> bool {
        true
    }

    open spec fn eq_spec(&self, other: &HeaderField) -> bool {
        self@ == other@
    }
}

impl Eq for HeaderField {

}

/// The parse of one header line: the line divides at its first
/// separator character; both sides are trimmed, and any further
/// separator characters stay inside the value. A line without a
/// separator is malformed.
pub open spec fn parse_header_field(line: Seq<char>) -> Result<HeaderFieldView, ParseError> {
    let i = find_char(line, ':');
    if i >= 0 {
        Ok(HeaderFieldView { name: trim_spec(line.take(i)), value: trim_spec(line.skip(i + 1)) })
    } else {
        Err(ParseError::MalformedHeader)
    }
}

/// The serialized form of a header field: `name: value`.
pub open spec fn serialize_header_field(h: HeaderFieldView) -> Seq<char> {
    h.name + seq![':', ' '] + h.value
}

/// Whether a header field is in the normalized form the parser yields:
/// both sides trimmed, and no separator character inside the name.
pub open spec fn wf_header_field(h: HeaderFieldView) -> bool {
    &&& trim_spec(h.name) == h.name
    &&& trim_spec(h.value) == h.value
    &&& !h.name.contains(':')
}

impl HeaderField {
    /// Parses the passed line as one header field.
    pub fn from(msg: &str) -> (r: Result<HeaderField, ParseError>)
        ensures
            match parse_header_field(msg@) {
                Ok(h) => r matches Ok(hf) && hf@ == h,
                Err(e) => r matches Err(e2) && e2 == e,
            },
    {
        let cs = chars_of(msg);
        proof {
            lemma_find_char(msg@, ':');
        }
        match find_from(cs.as_slice(), 0, ':') {
            Some(i) => {
                proof {
                    assert(find_char(msg@, ':') == i as int);
                }
                let n = cs.len();
                let name_raw = copy_range(cs.as_slice(), 0, i);
                let value_raw = copy_range(cs.as_slice(), i + 1, n);
                let name = string_of(trim(name_raw.as_slice()));
                let value = string_of(trim(value_raw.as_slice()));
                proof {
                    assert(name_raw@ =~= msg@.take(i as int));
                    assert(value_raw@ =~= msg@.skip(i + 1));
                }
                Ok(HeaderField { name, value })
            },
            None => {
                proof {
                    assert(find_char(msg@, ':') == -1);
                }
                Err(ParseError::MalformedHeader)
            },
        }
    }
}

impl HTTP for HeaderField {
    open spec fn http_form(&self) -> Seq<char> {
        serialize_header_field(self@)
    }

    open spec fn http_serializable(&self) -> bool {
        true
    }

    fn to_http(&self) -> (r: Result<String, ErrorToHTTP>) {
        let mut v = chars_of(self.name.as_str());
        v.push(':');
        v.push(' ');
        let value_chars = chars_of(self.value.as_str());
        extend_chars(&mut v, value_chars.as_slice());
        proof {
            assert(v@ =~= serialize_header_field(self@));
        }
        Ok(string_of(v))
    }
}

/// A line without a separator character anywhere always fails to
/// parse, and always with the malformed-header error.
pub proof fn lemma_no_separator_malformed(line: Seq<char>)
    requires
        !line.contains(':'),
    ensures
        parse_header_field(line) == Err::<HeaderFieldView, ParseError>(
            ParseError::MalformedHeader,
        ),
{
    lemma_find_char(line, ':');
    if find_char(line, ':') >= 0 {
        assert(line.contains(':'));
    }
}

/// Parsing the serialized form of a normalized header field yields the
/// field back: serialization loses nothing.
pub proof fn lemma_header_field_round_trip(h: HeaderFieldView)
    requires
        wf_header_field(h),
    ensures
        parse_header_field(serialize_header_field(h)) == Ok::<HeaderFieldView, ParseError>(h),
{
    let s = serialize_header_field(h);
    let nl = h.name.len() as int;
    lemma_find_char(s, ':');
    assert(s[nl] == ':');
    assert forall|j: int| 0 <= j < nl implies s[j] != ':' by {
        assert(s[j] == h.name[j]);
        if h.name[j] == ':' {
            assert(h.name.contains(':'));
        }
    }
    let f = find_char(s, ':');
    assert(f == nl);
    assert(s.take(f) =~= h.name);
    assert(s.skip(f + 1) =~= seq![' '] + h.value);
    assert((seq![' '] + h.value).skip(1) =~= h.value);
    assert(parse_header_field(s) == Ok::<HeaderFieldView, ParseError>(
        HeaderFieldView { name: h.name, value: h.value },
    ));
}

} // verus!
