//! Start line of an HTTP message: the first line, which defines how
//! the message is to be treated, in either request or status form.

use vstd::prelude::*;

use crate::http::ErrorToHTTP;
use crate::http::ParseError;
use crate::http::HTTP;
use crate::text::chars_of;
use crate::text::contains_seq;
use crate::text::chars_eq;
use crate::text::copy_range;
use crate::text::dec_string;
use crate::text::dec_value;
use crate::text::extend_chars;
use crate::text::find_char;
use crate::text::find_from;
use crate::text::is_dec_u32;
use crate::text::is_space;
use crate::text::join;
use crate::text::join_seq;
use crate::text::lemma_dec_string_value;
use crate::text::lemma_find_char;
use crate::text::lemma_join_split;
use crate::text::lemma_split_no_sep;
use crate::text::lemma_split_prepend_char;
use crate::text::lemma_trim_characterization;
use crate::text::lemma_trimmed_ends;
use crate::text::parse_u32;
use crate::text::split;
use crate::text::split_seq;
use crate::text::string_of;
use crate::text::to_upper;
use crate::text::to_upper_seq;
use crate::text::trim;
use crate::text::trim_end_spec;
use crate::text::trim_spec;
use crate::text::trim_start_spec;
use crate::text::u32_to_dec;

verus! {

/// The mathematical model of a start line.
pub enum StartLineView {
    Request { method: Seq<char>, target: Seq<char>, version: Seq<char> },
    Status { version: Seq<char>, code: u32, reason: Option<Seq<char>> },
}

/// The first line of an HTTP message.
#[derive(Debug, Clone)]
pub enum StartLine {
    /// A request line: some action for the recipient to take.
    RequestLine {
        /// The method keyword, canonically upper-cased.
        method: String,
        /// The resource the method acts on.
        target: String,
        /// The protocol version, upper-cased; empty when absent.
        version: String,
    },
    /// A status line: a response to a request message.
    StatusLine {
        /// The protocol version, upper-cased.
        version: String,
        /// The response code.
        code: u32,
        /// The reason given for the response, if any.
        reason: Option<String>,
    },
}

impl View for StartLine {
    type V = StartLineView;

    open spec fn view(&self) -> StartLineView {
        match self {
            StartLine::RequestLine { method, target, version } => StartLineView::Request {
                method: method@,
                target: target@,
                version: version@,
            },
            StartLine::StatusLine { version, code, reason } => StartLineView::Status {
                version: version@,
                code: *code,
                reason: match reason {
                    Some(r) => Some(r@),
                    None => None,
                },
            },
        }
    }
}

impl PartialEq for StartLine {
    fn eq(&self, other: &StartLine) -> bool {
        match (self, other) {
            (
                StartLine::RequestLine { method: m1, target: t1, version: v1 },
                StartLine::RequestLine { method: m2, target: t2, version: v2 },
            ) => *m1 == *m2 && *t1 == *t2 && *v1 == *v2,
            (
                StartLine::StatusLine { version: v1, code: c1, reason: r1 },
                StartLine::StatusLine { version: v2, code: c2, reason: r2 },
            ) => *v1 == *v2 && *c1 == *c2 && match (r1, r2) {
                (None, None) => true,
                (Some(a), Some(b)) => *a == *b,
                _ => false,
            },
            _ => false,
        }
    }
}

impl vstd::std_specs::cmp::PartialEqSpecImpl for StartLine {
    open spec fn obeys_eq_spec() -> bool {
        true
    }

    open spec fn eq_spec(&self, other: &StartLine) -> bool {
        self@ == other@
    }
}

impl Eq for StartLine {

}

/// The registered method keywords: a closed set, holding `GET`.
/// Extending the registry is configuration, not a parser change.
pub open spec fn spec_methods() -> Seq<Seq<char>> {
    seq![seq!['G', 'E', 'T']]
}

/// The registered method keywords, one character vector each.
pub fn http_methods() -> (v: Vec<Vec<char>>)
    ensures
        v.deep_view() == spec_methods(),
{
    let mut get: Vec<char> = Vec::new();
    get.push('G');
    get.push('E');
    get.push('T');
    let mut v: Vec<Vec<char>> = Vec::new();
    v.push(get);
    proof {
        assert(v.deep_view() =~~= spec_methods());
    }
    v
}

/// Whether `tok` is one of the registered method keywords.
fn is_registered_method(tok: &[char]) -> (r: bool)
    ensures
        r == spec_methods().contains(tok@),
{
    let methods = http_methods();
    let n = methods.len();
    let mut k: usize = 0;
    while k < n
        invariant
            0 <= k <= n == methods.deep_view().len(),
            methods.deep_view() == spec_methods(),
            forall|j: int| 0 <= j < k ==> spec_methods()[j] != tok@,
        decreases n - k,
    {
        proof {
            assert(methods@[k as int].deep_view() =~= methods@[k as int]@);
        }
        if chars_eq(methods[k].as_slice(), tok) {
            proof {
                assert(spec_methods()[k as int] == tok@);
            }
            return true;
        }
        k = k + 1;
    }
    proof {
        if spec_methods().contains(tok@) {
            let j = choose|j: int| 0 <= j < spec_methods().len() && spec_methods()[j] == tok@;
            assert(spec_methods()[j] != tok@);
        }
    }
    false
}

/// The single-space separator used between start-line tokens.
pub open spec fn space_sep() -> Seq<char> {
    seq![' ']
}

/// Whether the trimmed line divides on exactly two quote characters
/// into three non-empty segments, the quoted-target form.
pub open spec fn quote_split_applies(t: Seq<char>) -> bool {
    let i = find_char(t, '"');
    let j = find_char(t.skip(i + 1), '"');
    &&& i >= 1
    &&& j >= 1
    &&& find_char(t.skip(i + 1).skip(j + 1), '"') == -1
    &&& i + j + 2 < t.len()
}

/// The tokens of a trimmed start line: the three quote-delimited
/// segments when the quoted-target form applies, else the segments
/// between single spaces.
pub open spec fn line_tokens(t: Seq<char>) -> Seq<Seq<char>> {
    if quote_split_applies(t) {
        let i = find_char(t, '"');
        let q2 = i + 1 + find_char(t.skip(i + 1), '"');
        seq![t.take(i), t.subrange(i + 1, q2), t.skip(q2 + 1)]
    } else {
        split_seq(t, space_sep())
    }
}

/// The parse of a start line. The line is trimmed and tokenized; a
/// single token fits neither form. A first token that upper-cases to
/// a registered method keyword gives a request line whose version is
/// empty when absent; any other first token is the version of a
/// status line, whose second token must be an unsigned decimal code
/// and whose remaining tokens, rejoined with single spaces and
/// trimmed, give the reason, absent when empty.
pub open spec fn parse_start_line(line: Seq<char>) -> Result<StartLineView, ParseError> {
    let t = trim_spec(line);
    let toks = line_tokens(t);
    let first = to_upper_seq(trim_spec(toks[0]));
    if toks.len() < 2 {
        Err(ParseError::UnknownMethodAndInvalidStatus)
    } else if spec_methods().contains(first) {
        Ok(StartLineView::Request {
            method: first,
            target: trim_spec(toks[1]),
            version: if toks.len() >= 3 {
                to_upper_seq(trim_spec(toks[2]))
            } else {
                Seq::<char>::empty()
            },
        })
    } else {
        let code_tok = trim_spec(toks[1]);
        if is_dec_u32(code_tok) {
            let reason = trim_spec(join_seq(toks.skip(2), space_sep()));
            Ok(StartLineView::Status {
                version: first,
                code: dec_value(code_tok) as u32,
                reason: if reason.len() == 0 {
                    None
                } else {
                    Some(reason)
                },
            })
        } else {
            Err(ParseError::InvalidStatusCode)
        }
    }
}

/// The tokens of the trimmed line `t`.
fn tokenize(t: &[char]) -> (toks: Vec<Vec<char>>)
    ensures
        toks.deep_view() == line_tokens(t@),
        toks@.len() >= 1,
{
    let n = t.len();
    proof {
        lemma_find_char(t@, '"');
    }
    let q1 = find_from(t, 0, '"');
    let mut quoted = false;
    let mut i: usize = 0;
    let mut q2: usize = 0;
    match q1 {
        None => {
            proof {
                assert(find_char(t@, '"') == -1);
                assert(!quote_split_applies(t@));
            }
        },
        Some(qi) => {
            proof {
                assert(find_char(t@, '"') == qi as int);
                lemma_find_char(t@.skip(qi + 1), '"');
                assert(forall|k: int|
                    0 <= k < t@.skip(qi + 1).len() ==> #[trigger] t@.skip(qi + 1)[k] == t@[qi + 1
                        + k]);
            }
            i = qi;
            match find_from(t, qi + 1, '"') {
                None => {
                    proof {
                        assert(find_char(t@.skip(qi + 1), '"') == -1);
                        assert(!quote_split_applies(t@));
                    }
                },
                Some(qj) => {
                    proof {
                        assert(t@.skip(qi + 1)[qj - (qi + 1)] == '"');
                        assert(forall|k: int|
                            0 <= k < qj - (qi + 1) ==> #[trigger] t@.skip(qi + 1)[k] != '"');
                        assert(find_char(t@.skip(qi + 1), '"') == qj - (qi + 1));
                        lemma_find_char(t@.skip(qi + 1).skip(qj - qi), '"');
                        assert(t@.skip(qi + 1).skip(qj - qi) =~= t@.skip(qj + 1));
                        assert(forall|k: int|
                            0 <= k < t@.skip(qj + 1).len() ==> #[trigger] t@.skip(qj + 1)[k]
                                == t@[qj + 1 + k]);
                    }
                    q2 = qj;
                    let third = find_from(t, qj + 1, '"');
                    if third.is_none() && qi >= 1 && qj > qi + 1 && qj + 1 < n {
                        quoted = true;
                        proof {
                            assert(find_char(t@.skip(qi + 1).skip(qj - qi), '"') == -1);
                            assert(quote_split_applies(t@));
                        }
                    } else {
                        proof {
                            if third is Some {
                                let w = third.unwrap() as int;
                                assert(t@.skip(qj + 1)[w - (qj + 1)] == '"');
                                assert(find_char(t@.skip(qi + 1).skip(qj - qi), '"') != -1);
                            }
                            assert(!quote_split_applies(t@));
                        }
                    }
                },
            }
        },
    }
    if quoted {
        let s0 = copy_range(t, 0, i);
        let s1 = copy_range(t, i + 1, q2);
        let s2 = copy_range(t, q2 + 1, n);
        let mut toks: Vec<Vec<char>> = Vec::new();
        toks.push(s0);
        toks.push(s1);
        toks.push(s2);
        proof {
            assert(t@.subrange(0, i as int) =~= t@.take(i as int));
            assert(t@.subrange(q2 + 1, n as int) =~= t@.skip(q2 + 1));
            assert(toks.deep_view() =~~= line_tokens(t@));
        }
        toks
    } else {
        let mut sep: Vec<char> = Vec::new();
        sep.push(' ');
        let toks = split(t, sep.as_slice());
        proof {
            assert(sep@ =~= space_sep());
            crate::text::lemma_split_len(t@, space_sep());
            assert(toks@.len() == toks.deep_view().len());
        }
        toks
    }
}

impl StartLine {
    /// Converts the passed line to a start line.
    pub fn from(msg: &str) -> (r: Result<StartLine, ParseError>)
        ensures
            match parse_start_line(msg@) {
                Ok(sl) => r matches Ok(x) && x@ == sl,
                Err(e) => r matches Err(e2) && e2 == e,
            },
    {
        let cs = chars_of(msg);
        let t = trim(cs.as_slice());
        let toks = tokenize(t.as_slice());
        let ghost stoks = line_tokens(trim_spec(msg@));
        proof {
            assert(toks@[0].deep_view() =~= toks@[0]@);
            assert(toks@[0]@ == stoks[0]);
        }
        if toks.len() < 2 {
            return Err(ParseError::UnknownMethodAndInvalidStatus);
        }
        let first = to_upper(trim(toks[0].as_slice()).as_slice());
        if is_registered_method(first.as_slice()) {
            proof {
                assert(toks@[1].deep_view() =~= toks@[1]@);
                assert(toks@[1]@ == stoks[1]);
                if toks@.len() >= 3 {
                    assert(toks@[2].deep_view() =~= toks@[2]@);
                    assert(toks@[2]@ == stoks[2]);
                }
            }
            let target = string_of(trim(toks[1].as_slice()));
            let version = if toks.len() >= 3 {
                string_of(to_upper(trim(toks[2].as_slice()).as_slice()))
            } else {
                String::new()
            };
            Ok(StartLine::RequestLine { method: string_of(first), target, version })
        } else {
            proof {
                assert(toks@[1].deep_view() =~= toks@[1]@);
                assert(toks@[1]@ == stoks[1]);
            }
            let code_tok = trim(toks[1].as_slice());
            match parse_u32(code_tok.as_slice()) {
                None => Err(ParseError::InvalidStatusCode),
                Some(code) => {
                    let mut sep: Vec<char> = Vec::new();
                    sep.push(' ');
                    let joined = join(&toks, 2, sep.as_slice());
                    proof {
                        assert(sep@ =~= space_sep());
                        assert(toks.deep_view().skip(2) =~= stoks.skip(2));
                    }
                    let reason_chars = trim(joined.as_slice());
                    let version = string_of(first);
                    if reason_chars.len() == 0 {
                        Ok(StartLine::StatusLine { version, code, reason: None })
                    } else {
                        Ok(
                            StartLine::StatusLine {
                                version,
                                code,
                                reason: Some(string_of(reason_chars)),
                            },
                        )
                    }
                },
            }
        }
    }

    /// The method, target and version of a request line; `None` on a
    /// status line, never a silent default.
    pub fn request(&self) -> (r: Option<(&String, &String, &String)>)
        ensures
            match self@ {
                StartLineView::Request { method, target, version } => r matches Some(x) && x.0@
                    == method && x.1@ == target && x.2@ == version,
                StartLineView::Status { .. } => r is None,
            },
    {
        match self {
            StartLine::RequestLine { method, target, version } => Some((method, target, version)),
            StartLine::StatusLine { .. } => None,
        }
    }

    /// The version, code and reason of a status line; `None` on a
    /// request line, never a silent default.
    pub fn status(&self) -> (r: Option<(&String, u32, &Option<String>)>)
        ensures
            match self@ {
                StartLineView::Status { version, code, reason } => r matches Some(x) && x.0@
                    == version && x.1 == code && (match (x.2, reason) {
                    (Some(a), Some(b)) => a@ == b,
                    (None, None) => true,
                    _ => false,
                }),
                StartLineView::Request { .. } => r is None,
            },
    {
        match self {
            StartLine::StatusLine { version, code, reason } => Some((version, *code, reason)),
            StartLine::RequestLine { .. } => None,
        }
    }
}

/// The serialized form of a start line. A request line quotes its
/// target exactly when the target holds a space, and omits the
/// version token when the version is empty; a status line ends with
/// the reason only when one is present.
pub open spec fn serialize_start_line(sl: StartLineView) -> Seq<char> {
    match sl {
        StartLineView::Request { method, target, version } => {
            let tail = if version.len() > 0 {
                seq![' '] + version
            } else {
                Seq::<char>::empty()
            };
            if target.contains(' ') {
                method + seq![' ', '"'] + target + seq!['"'] + tail
            } else {
                method + seq![' '] + target + tail
            }
        },
        StartLineView::Status { version, code, reason } => {
            let tail = match reason {
                Some(r) => seq![' '] + r,
                None => Seq::<char>::empty(),
            };
            version + seq![' '] + dec_string(code as int) + tail
        },
    }
}

/// Whether a start line is in the normalized form the parser yields,
/// so that its serialized form parses back to it: tokens trimmed, the
/// method registered, versions upper-cased and free of spaces and
/// quotes, at least one of target and version present, a quoted
/// target only beside a version, and a reason, when present,
/// non-empty, trimmed and free of quotes.
pub open spec fn wf_start_line(sl: StartLineView) -> bool {
    match sl {
        StartLineView::Request { method, target, version } => {
            &&& spec_methods().contains(method)
            &&& trim_spec(target) == target
            &&& !target.contains('"')
            &&& trim_spec(version) == version
            &&& to_upper_seq(version) == version
            &&& !version.contains(' ')
            &&& !version.contains('"')
            &&& (target.contains(' ') ==> version.len() > 0)
            &&& (target.len() > 0 || version.len() > 0)
        },
        StartLineView::Status { version, code, reason } => {
            &&& version.len() > 0
            &&& trim_spec(version) == version
            &&& to_upper_seq(version) == version
            &&& !version.contains(' ')
            &&& !version.contains('"')
            &&& !spec_methods().contains(version)
            &&& match reason {
                Some(r) => r.len() > 0 && trim_spec(r) == r && !r.contains('"'),
                None => true,
            }
        },
    }
}

impl HTTP for StartLine {
    open spec fn http_form(&self) -> Seq<char> {
        serialize_start_line(self@)
    }

    open spec fn http_serializable(&self) -> bool {
        true
    }

    fn to_http(&self) -> (r: Result<String, ErrorToHTTP>) {
        match self {
            StartLine::RequestLine { method, target, version } => {
                let mut v = chars_of(method.as_str());
                let tgt = chars_of(target.as_str());
                let has_space = find_from(tgt.as_slice(), 0, ' ').is_some();
                proof {
                    if has_space {
                        assert(target@.contains(' '));
                    } else {
                        if target@.contains(' ') {
                            let w = choose|k: int|
                                0 <= k < target@.len() && target@[k] == ' ';
                            assert(target@[w] != ' ');
                        }
                    }
                }
                if has_space {
                    v.push(' ');
                    v.push('"');
                    extend_chars(&mut v, tgt.as_slice());
                    v.push('"');
                } else {
                    v.push(' ');
                    extend_chars(&mut v, tgt.as_slice());
                }
                let ver = chars_of(version.as_str());
                if ver.len() > 0 {
                    v.push(' ');
                    extend_chars(&mut v, ver.as_slice());
                }
                proof {
                    assert(v@ =~= serialize_start_line(self@));
                }
                Ok(string_of(v))
            },
            StartLine::StatusLine { version, code, reason } => {
                let mut v = chars_of(version.as_str());
                v.push(' ');
                let digits = u32_to_dec(*code);
                extend_chars(&mut v, digits.as_slice());
                match reason {
                    Some(rs) => {
                        v.push(' ');
                        let rc = chars_of(rs.as_str());
                        extend_chars(&mut v, rc.as_slice());
                    },
                    None => {},
                }
                proof {
                    assert(v@ =~= serialize_start_line(self@));
                }
                Ok(string_of(v))
            },
        }
    }
}

proof fn lemma_method_is_get(m: Seq<char>)
    requires
        spec_methods().contains(m),
    ensures
        m == seq!['G', 'E', 'T'],
        m.len() == 3,
        trim_spec(m) == m,
        to_upper_seq(m) == m,
        forall|k: int| 0 <= k < m.len() ==> m[k] != ' ' && m[k] != '"',
{
    let j = choose|j: int| 0 <= j < spec_methods().len() && spec_methods()[j] == m;
    assert(m == seq!['G', 'E', 'T']);
    lemma_trim_characterization(m);
    assert(to_upper_seq(m) =~= m);
}

proof fn lemma_no_quote_no_split(t: Seq<char>)
    requires
        forall|j: int| 0 <= j < t.len() ==> t[j] != '"',
    ensures
        !quote_split_applies(t),
{
    lemma_find_char(t, '"');
}

proof fn lemma_no_char_no_sep(v: Seq<char>, c: char)
    requires
        !v.contains(c),
    ensures
        !contains_seq(v, seq![c]),
        split_seq(v, seq![c]) == seq![v],
{
    if contains_seq(v, seq![c]) {
        let i = choose|i: int|
            0 <= i && i + seq![c].len() <= v.len() && #[trigger] v.subrange(i, i + seq![c].len())
                == seq![c];
        assert(v.subrange(i, i + 1)[0] == v[i]);
        assert(v.contains(c));
    }
    lemma_split_no_sep(v, seq![c]);
}

/// Trimming drops a single leading space before a trimmed sequence.
proof fn lemma_trim_space_prefix(v: Seq<char>)
    requires
        trim_spec(v) == v,
    ensures
        trim_spec(seq![' '] + v) == v,
{
    let s = seq![' '] + v;
    assert(is_space(s[0]));
    assert(s.skip(1) =~= v);
    assert(trim_start_spec(s) == trim_start_spec(v));
    if v.len() == 0 {
        assert(trim_start_spec(v) == v);
        assert(trim_end_spec(v) == v);
    } else {
        lemma_trimmed_ends(v);
        assert(trim_start_spec(v) == v);
    }
}

proof fn lemma_rt_request_unquoted(m: Seq<char>, tg: Seq<char>, vr: Seq<char>)
    requires
        wf_start_line(StartLineView::Request { method: m, target: tg, version: vr }),
        !tg.contains(' '),
    ensures
        parse_start_line(serialize_start_line(StartLineView::Request {
            method: m,
            target: tg,
            version: vr,
        })) == Ok::<StartLineView, ParseError>(StartLineView::Request {
            method: m,
            target: tg,
            version: vr,
        }),
{
    lemma_method_is_get(m);
    let sl = StartLineView::Request { method: m, target: tg, version: vr };
    let tail = if vr.len() > 0 {
        seq![' '] + vr
    } else {
        Seq::<char>::empty()
    };
    let t = serialize_start_line(sl);
    assert(t == m + seq![' '] + tg + tail);
    assert forall|j: int| 0 <= j < t.len() implies t[j] != '"' by {
        if 3 < j < 4 + tg.len() {
            assert(t[j] == tg[j - 4]);
            if tg[j - 4] == '"' {
                assert(tg.contains('"'));
            }
        }
        if vr.len() > 0 && 4 + tg.len() < j {
            assert(t[j] == vr[j - (5 + tg.len())]);
            if t[j] == '"' {
                assert(vr.contains('"'));
            }
        }
    }
    lemma_no_quote_no_split(t);
    assert(trim_spec(t) == t) by {
        assert(t[0] == 'G');
        if vr.len() > 0 {
            lemma_trimmed_ends(vr);
            assert(t[t.len() - 1] == vr[vr.len() - 1]);
        } else {
            assert(tg.len() > 0);
            lemma_trimmed_ends(tg);
            assert(t[t.len() - 1] == tg[tg.len() - 1]);
        }
        lemma_trim_characterization(t);
    }
    assert(t =~= m + seq![' '] + (tg + tail));
    lemma_split_prepend_char(m, tg + tail, ' ');
    let toks = line_tokens(t);
    if vr.len() > 0 {
        assert(tg + tail =~= tg + seq![' '] + vr);
        lemma_split_prepend_char(tg, vr, ' ');
        lemma_no_char_no_sep(vr, ' ');
        assert(toks =~= seq![m, tg, vr]);
        assert(trim_spec(toks[0]) == m);
        assert(trim_spec(toks[1]) == tg);
        assert(trim_spec(toks[2]) == vr);
        assert(to_upper_seq(trim_spec(toks[0])) == m);
    } else {
        assert(tg + tail =~= tg);
        lemma_no_char_no_sep(tg, ' ');
        assert(toks =~= seq![m, tg]);
        assert(trim_spec(toks[0]) == m);
        assert(trim_spec(toks[1]) == tg);
        assert(to_upper_seq(trim_spec(toks[0])) == m);
        assert(vr =~= Seq::<char>::empty());
    }
}

proof fn lemma_rt_request_quoted(m: Seq<char>, tg: Seq<char>, vr: Seq<char>)
    requires
        wf_start_line(StartLineView::Request { method: m, target: tg, version: vr }),
        tg.contains(' '),
    ensures
        parse_start_line(serialize_start_line(StartLineView::Request {
            method: m,
            target: tg,
            version: vr,
        })) == Ok::<StartLineView, ParseError>(StartLineView::Request {
            method: m,
            target: tg,
            version: vr,
        }),
{
    lemma_method_is_get(m);
    let sl = StartLineView::Request { method: m, target: tg, version: vr };
    assert(vr.len() > 0);
    let t = serialize_start_line(sl);
    assert(t == m + seq![' ', '"'] + tg + seq!['"'] + (seq![' '] + vr));
    assert(tg.len() > 0) by {
        let w = choose|k: int| 0 <= k < tg.len() && tg[k] == ' ';
    }
    lemma_trimmed_ends(vr);
    assert(trim_spec(t) == t) by {
        assert(t[0] == 'G');
        assert(t[t.len() - 1] == vr[vr.len() - 1]);
        lemma_trim_characterization(t);
    }
    // The two quotes stand at indices 4 and 5 + tg.len().
    lemma_find_char(t, '"');
    assert(t[4] == '"');
    assert forall|j: int| 0 <= j < 4 implies t[j] != '"' by {
        if j < 3 {
            assert(t[j] == m[j]);
        } else {
            assert(t[j] == ' ');
        }
    }
    let i = find_char(t, '"');
    assert(i == 4);
    let s5 = t.skip(5);
    assert(s5 =~= tg + seq!['"'] + (seq![' '] + vr));
    lemma_find_char(s5, '"');
    assert(s5[tg.len() as int] == '"');
    assert forall|k: int| 0 <= k < tg.len() implies s5[k] != '"' by {
        assert(s5[k] == tg[k]);
        if tg[k] == '"' {
            assert(tg.contains('"'));
        }
    }
    let j = find_char(s5, '"');
    assert(j == tg.len());
    let after = s5.skip(j + 1);
    assert(after =~= seq![' '] + vr);
    lemma_find_char(after, '"');
    assert(find_char(after, '"') == -1) by {
        if find_char(after, '"') != -1 {
            let f = find_char(after, '"');
            assert(after[f] == '"');
            if f >= 1 {
                assert(vr[f - 1] == '"');
                assert(vr.contains('"'));
            }
        }
    }
    assert(quote_split_applies(t)) by {
        assert(i + j + 2 < t.len());
    }
    let toks = line_tokens(t);
    assert(toks[0] =~= m + seq![' ']);
    assert(toks[1] =~= tg);
    assert(toks[2] =~= seq![' '] + vr);
    assert(trim_spec(m + seq![' ']) == m) by {
        assert(!is_space((m + seq![' '])[0]));
        assert(trim_start_spec(m + seq![' ']) == m + seq![' ']);
        assert(is_space((m + seq![' '])[m.len() as int]));
        assert((m + seq![' ']).take(m.len() as int) =~= m);
        assert(trim_end_spec(m + seq![' ']) == trim_end_spec(m));
        assert(!is_space(m[m.len() - 1]));
        assert(trim_end_spec(m) == m);
    }
    assert(to_upper_seq(trim_spec(toks[0])) == m);
    assert(trim_spec(toks[1]) == tg);
    lemma_trim_space_prefix(vr);
    assert(trim_spec(toks[2]) == vr);
}

proof fn lemma_rt_status(vr: Seq<char>, code: u32, reason: Option<Seq<char>>)
    requires
        wf_start_line(StartLineView::Status { version: vr, code, reason }),
    ensures
        parse_start_line(serialize_start_line(StartLineView::Status {
            version: vr,
            code,
            reason,
        })) == Ok::<StartLineView, ParseError>(StartLineView::Status {
            version: vr,
            code,
            reason,
        }),
{
    let sl = StartLineView::Status { version: vr, code, reason };
    let d = dec_string(code as int);
    lemma_dec_string_value(code as int);
    assert(forall|k: int| 0 <= k < d.len() ==> 48 <= #[trigger] d[k] as int <= 57);
    assert(!d.contains(' ')) by {
        if d.contains(' ') {
            let w = choose|k: int| 0 <= k < d.len() && d[k] == ' ';
        }
    }
    assert(trim_spec(d) == d) by {
        lemma_trim_characterization(d);
    }
    let tail = match reason {
        Some(r) => seq![' '] + r,
        None => Seq::<char>::empty(),
    };
    let t = serialize_start_line(sl);
    assert(t == vr + seq![' '] + d + tail);
    lemma_trimmed_ends(vr);
    assert forall|j: int| 0 <= j < t.len() implies t[j] != '"' by {
        if j < vr.len() {
            assert(t[j] == vr[j]);
            if t[j] == '"' {
                assert(vr.contains('"'));
            }
        } else if vr.len() < j < vr.len() + 1 + d.len() {
            assert(t[j] == d[j - vr.len() - 1]);
        } else if j > vr.len() + 1 + d.len() {
            let r = reason.unwrap();
            assert(t[j] == r[j - (vr.len() + 2 + d.len())]);
            if t[j] == '"' {
                assert(r.contains('"'));
            }
        }
    }
    lemma_no_quote_no_split(t);
    assert(trim_spec(t) == t) by {
        assert(t[0] == vr[0]);
        match reason {
            Some(r) => {
                lemma_trimmed_ends(r);
                assert(t[t.len() - 1] == r[r.len() - 1]);
            },
            None => {
                assert(t[t.len() - 1] == d[d.len() - 1]);
            },
        }
        lemma_trim_characterization(t);
    }
    assert(t =~= vr + seq![' '] + (d + tail));
    lemma_split_prepend_char(vr, d + tail, ' ');
    let toks = line_tokens(t);
    match reason {
        None => {
            assert(d + tail =~= d);
            lemma_no_char_no_sep(d, ' ');
            assert(toks =~= seq![vr, d]);
            assert(trim_spec(toks[0]) == vr);
            assert(to_upper_seq(trim_spec(toks[0])) == vr);
            assert(trim_spec(toks[1]) == d);
            assert(is_dec_u32(d));
            assert(toks.skip(2) =~= Seq::<Seq<char>>::empty());
            assert(trim_spec(join_seq(toks.skip(2), space_sep())).len() == 0);
        },
        Some(r) => {
            assert(d + tail =~= d + seq![' '] + r);
            lemma_split_prepend_char(d, r, ' ');
            crate::text::lemma_split_len(r, seq![' ']);
            assert(toks =~= seq![vr, d] + split_seq(r, seq![' ']));
            assert(toks[0] == vr);
            assert(toks[1] == d);
            assert(trim_spec(toks[0]) == vr);
            assert(to_upper_seq(trim_spec(toks[0])) == vr);
            assert(trim_spec(toks[1]) == d);
            assert(is_dec_u32(d));
            assert(toks.skip(2) =~= split_seq(r, space_sep()));
            lemma_join_split(r, space_sep());
            assert(trim_spec(join_seq(toks.skip(2), space_sep())) == r);
        },
    }
}

/// Parsing the serialized form of a normalized start line yields the
/// line back: serialization loses nothing.
pub proof fn lemma_start_line_round_trip(sl: StartLineView)
    requires
        wf_start_line(sl),
    ensures
        parse_start_line(serialize_start_line(sl)) == Ok::<StartLineView, ParseError>(sl),
{
    match sl {
        StartLineView::Request { method, target, version } => {
            if target.contains(' ') {
                lemma_rt_request_quoted(method, target, version);
            } else {
                lemma_rt_request_unquoted(method, target, version);
            }
        },
        StartLineView::Status { version, code, reason } => {
            lemma_rt_status(version, code, reason);
        },
    }
}

} // verus!
