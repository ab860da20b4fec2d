//! Character-sequence utilities shared by the message parsers: ASCII
//! whitespace trimming, separator splitting and joining, upper-casing,
//! and unsigned decimal numerals, each as a spec-level definition with
//! a verified executable counterpart.

use vstd::prelude::*;

verus! {

/// ASCII whitespace: space, horizontal tab, carriage return, line feed.
pub open spec fn is_space(c: char) -> bool {
    c == ' ' || c == '\t' || c == '\r' || c == '\n'
}

/// `s` without its leading whitespace.
pub open spec fn trim_start_spec(s: Seq<char>) -> Seq<char>
    decreases s.len(),
{
    if s.len() > 0 && is_space(s[0]) {
        trim_start_spec(s.skip(1))
    } else {
        s
    }
}

/// `s` without its trailing whitespace.
pub open spec fn trim_end_spec(s: Seq<char>) -> Seq<char>
    decreases s.len(),
{
    if s.len() > 0 && is_space(s[s.len() - 1]) {
        trim_end_spec(s.take(s.len() - 1))
    } else {
        s
    }
}

/// `s` without leading and trailing whitespace.
pub open spec fn trim_spec(s: Seq<char>) -> Seq<char> {
    trim_end_spec(trim_start_spec(s))
}

/// A sequence is trimmed exactly when it is empty or starts and ends
/// with non-whitespace.
pub proof fn lemma_trim_characterization(s: Seq<char>)
    requires
        s.len() == 0 || (!is_space(s[0]) && !is_space(s[s.len() - 1])),
    ensures
        trim_spec(s) == s,
{
    assert(trim_start_spec(s) == s);
    assert(trim_end_spec(s) == s);
}

proof fn lemma_trim_start_at(s: Seq<char>, a: int)
    requires
        0 <= a <= s.len(),
        forall|j: int| 0 <= j < a ==> is_space(s[j]),
        a < s.len() ==> !is_space(s[a]),
    ensures
        trim_start_spec(s) == s.skip(a),
    decreases a,
{
    if a == 0 {
        assert(s.skip(0) == s);
    } else {
        assert(is_space(s[0]));
        assert(s.skip(1).skip(a - 1) =~= s.skip(a));
        lemma_trim_start_at(s.skip(1), a - 1);
    }
}

proof fn lemma_trim_end_at(s: Seq<char>, b: int)
    requires
        0 <= b <= s.len(),
        forall|j: int| b <= j < s.len() ==> is_space(s[j]),
        b > 0 ==> !is_space(s[b - 1]),
    ensures
        trim_end_spec(s) == s.take(b),
    decreases s.len() - b,
{
    if b == s.len() {
        assert(s.take(b) == s);
    } else {
        assert(is_space(s[s.len() - 1]));
        assert(s.take(s.len() - 1).take(b) =~= s.take(b));
        lemma_trim_end_at(s.take(s.len() - 1), b);
    }
}

proof fn lemma_trim_start_len(s: Seq<char>)
    ensures
        trim_start_spec(s).len() <= s.len(),
        s.len() > 0 && is_space(s[0]) ==> trim_start_spec(s).len() < s.len(),
    decreases s.len(),
{
    if s.len() > 0 && is_space(s[0]) {
        lemma_trim_start_len(s.skip(1));
    }
}

proof fn lemma_trim_end_len(s: Seq<char>)
    ensures
        trim_end_spec(s).len() <= s.len(),
        s.len() > 0 && is_space(s[s.len() - 1]) ==> trim_end_spec(s).len() < s.len(),
    decreases s.len(),
{
    if s.len() > 0 && is_space(s[s.len() - 1]) {
        lemma_trim_end_len(s.take(s.len() - 1));
    }
}

proof fn lemma_trim_start_last(s: Seq<char>)
    ensures
        trim_start_spec(s).len() > 0 ==> trim_start_spec(s)[trim_start_spec(s).len() - 1]
            == s[s.len() - 1],
    decreases s.len(),
{
    if s.len() > 0 && is_space(s[0]) {
        lemma_trim_start_last(s.skip(1));
    }
}

/// A non-empty trimmed sequence starts and ends with non-whitespace.
pub proof fn lemma_trimmed_ends(s: Seq<char>)
    requires
        trim_spec(s) == s,
        s.len() > 0,
    ensures
        !is_space(s[0]),
        !is_space(s[s.len() - 1]),
{
    lemma_trim_start_len(s);
    lemma_trim_end_len(trim_start_spec(s));
    if is_space(s[s.len() - 1]) {
        let x = trim_start_spec(s);
        if x.len() > 0 {
            lemma_trim_start_last(s);
            lemma_trim_end_len(x);
        }
    }
}

/// Whether `c` counts as whitespace for trimming.
pub fn is_space_char(c: char) -> (r: bool)
    ensures
        r == is_space(c),
{
    c == ' ' || c == '\t' || c == '\r' || c == '\n'
}

/// The characters of `s@.subrange(from, to)` as a fresh vector.
pub fn copy_range(s: &[char], from: usize, to: usize) -> (v: Vec<char>)
    requires
        from <= to <= s@.len(),
    ensures
        v@ == s@.subrange(from as int, to as int),
{
    let mut v: Vec<char> = Vec::new();
    let mut i: usize = from;
    while i < to
        invariant
            from <= i <= to <= s@.len(),
            v@ == s@.subrange(from as int, i as int),
        decreases to - i,
    {
        v.push(s[i]);
        i = i + 1;
        proof {
            assert(v@ =~= s@.subrange(from as int, i as int));
        }
    }
    v
}

/// `s` with leading and trailing whitespace removed.
pub fn trim(s: &[char]) -> (v: Vec<char>)
    ensures
        v@ == trim_spec(s@),
{
    let n = s.len();
    let mut a: usize = 0;
    while a < n && is_space_char(s[a])
        invariant
            0 <= a <= n == s@.len(),
            forall|j: int| 0 <= j < a ==> is_space(s@[j]),
        decreases n - a,
    {
        a = a + 1;
    }
    proof {
        lemma_trim_start_at(s@, a as int);
    }
    let mut b: usize = n;
    while b > a && is_space_char(s[b - 1])
        invariant
            a <= b <= n == s@.len(),
            forall|j: int| b <= j < n ==> is_space(s@[j]),
        decreases b,
    {
        b = b - 1;
    }
    proof {
        if b == a {
            lemma_trim_end_at(s@.skip(a as int), 0);
        } else {
            lemma_trim_end_at(s@.skip(a as int), b - a);
        }
        assert(s@.skip(a as int).take(b - a) =~= s@.subrange(a as int, b as int));
    }
    copy_range(s, a, b)
}

/// The characters of a string slice as a vector.
pub fn chars_of(s: &str) -> (v: Vec<char>)
    ensures
        v@ == s@,
{
    let n = s.unicode_len();
    let mut v: Vec<char> = Vec::new();
    let mut i: usize = 0;
    while i < n
        invariant
            0 <= i <= n == s@.len(),
            v@ == s@.take(i as int),
        decreases n - i,
    {
        v.push(s.get_char(i));
        i = i + 1;
        proof {
            assert(v@ =~= s@.take(i as int));
        }
    }
    proof {
        assert(s@.take(n as int) =~= s@);
    }
    v
}

/// Relies on `String: FromIterator<char>` (`collect`): the collected
/// string holds exactly the characters of the vector, in order.
#[verifier::external_body]
pub fn string_of(v: Vec<char>) -> (s: String)
    ensures
        s@ == v@,
{
    v.into_iter().collect()
}

/// Whether `s` begins with the sequence `pre`.
pub open spec fn starts_with(s: Seq<char>, pre: Seq<char>) -> bool {
    pre.len() <= s.len() && s.subrange(0, pre.len() as int) == pre
}

/// Whether `sep` occurs anywhere inside `s`.
pub open spec fn contains_seq(s: Seq<char>, sep: Seq<char>) -> bool {
    exists|i: int| 0 <= i && i + sep.len() <= s.len() && #[trigger] s.subrange(i, i + sep.len())
        == sep
}

/// `s` divided at every occurrence of `sep`, leftmost-first; the
/// separators themselves are dropped. There is always at least one
/// segment, and empty segments are kept, as with `str::split`.
pub open spec fn split_seq(s: Seq<char>, sep: Seq<char>) -> Seq<Seq<char>>
    decreases s.len(),
{
    if s.len() == 0 {
        seq![Seq::<char>::empty()]
    } else if sep.len() > 0 && starts_with(s, sep) {
        seq![Seq::<char>::empty()] + split_seq(s.skip(sep.len() as int), sep)
    } else {
        let rest = split_seq(s.skip(1), sep);
        seq![seq![s[0]] + rest[0]] + rest.skip(1)
    }
}

/// The segments of `parts` concatenated with `sep` between neighbours.
pub open spec fn join_seq(parts: Seq<Seq<char>>, sep: Seq<char>) -> Seq<char>
    decreases parts.len(),
{
    if parts.len() == 0 {
        Seq::<char>::empty()
    } else if parts.len() == 1 {
        parts[0]
    } else {
        parts[0] + sep + join_seq(parts.skip(1), sep)
    }
}

pub proof fn lemma_split_len(s: Seq<char>, sep: Seq<char>)
    ensures
        split_seq(s, sep).len() >= 1,
    decreases s.len(),
{
    if s.len() == 0 {
    } else if sep.len() > 0 && starts_with(s, sep) {
        lemma_split_len(s.skip(sep.len() as int), sep);
    } else {
        lemma_split_len(s.skip(1), sep);
    }
}

/// Splitting a sequence free of the separator yields that sequence as
/// the one segment.
pub proof fn lemma_split_no_sep(s: Seq<char>, sep: Seq<char>)
    requires
        sep.len() > 0,
        !contains_seq(s, sep),
    ensures
        split_seq(s, sep) == seq![s],
    decreases s.len(),
{
    if s.len() == 0 {
        assert(split_seq(s, sep) =~~= seq![s]);
    } else {
        assert(!starts_with(s, sep)) by {
            if starts_with(s, sep) {
                assert(s.subrange(0, 0 + sep.len() as int) =~= s.subrange(0, sep.len() as int));
                assert(contains_seq(s, sep));
            }
        }
        assert(!contains_seq(s.skip(1), sep)) by {
            if contains_seq(s.skip(1), sep) {
                let i = choose|i: int|
                    0 <= i && i + sep.len() <= s.skip(1).len() && #[trigger] s.skip(1).subrange(
                        i,
                        i + sep.len(),
                    ) == sep;
                assert(s.subrange(i + 1, i + 1 + sep.len()) =~= s.skip(1).subrange(
                    i,
                    i + sep.len(),
                ));
            }
        }
        lemma_split_no_sep(s.skip(1), sep);
        assert(seq![s[0]] + s.skip(1) =~= s);
        assert(split_seq(s, sep) =~= seq![s]);
    }
}

/// Splitting `a + sep + b` peels off `a` as the first segment, provided
/// no occurrence of `sep` starts inside `a`.
pub proof fn lemma_split_prepend(a: Seq<char>, b: Seq<char>, sep: Seq<char>)
    requires
        sep.len() > 0,
        forall|i: int|
            0 <= i < a.len() ==> #[trigger] (a + sep + b).subrange(i, i + sep.len()) != sep,
    ensures
        split_seq(a + sep + b, sep) == seq![a] + split_seq(b, sep),
    decreases a.len(),
{
    let s = a + sep + b;
    if a.len() == 0 {
        assert(starts_with(s, sep)) by {
            assert(s.subrange(0, sep.len() as int) =~= sep);
        }
        assert(s.skip(sep.len() as int) =~= b);
        assert(a =~= Seq::<char>::empty());
        assert(seq![Seq::<char>::empty()] + split_seq(b, sep) =~= seq![a] + split_seq(b, sep));
    } else {
        assert(!starts_with(s, sep)) by {
            if starts_with(s, sep) {
                assert((a + sep + b).subrange(0, 0 + sep.len() as int) =~= s.subrange(
                    0,
                    sep.len() as int,
                ));
            }
        }
        let a1 = a.skip(1);
        let s1 = a1 + sep + b;
        assert(s1 =~= s.skip(1));
        assert(forall|i: int|
            0 <= i < a1.len() ==> #[trigger] s1.subrange(i, i + sep.len()) != sep) by {
            assert(forall|i: int|
                0 <= i < a1.len() ==> #[trigger] s1.subrange(i, i + sep.len()) =~= s.subrange(
                    i + 1,
                    i + 1 + sep.len(),
                ));
        }
        lemma_split_prepend(a1, b, sep);
        let rest = split_seq(s.skip(1), sep);
        lemma_split_len(b, sep);
        assert(rest[0] == a1);
        assert(seq![s[0]] + rest[0] =~= a);
        assert(split_seq(s, sep) =~= seq![a] + split_seq(b, sep));
    }
}

/// Joining the segments of a split restores the original sequence.
pub proof fn lemma_join_split(s: Seq<char>, sep: Seq<char>)
    requires
        sep.len() > 0,
    ensures
        join_seq(split_seq(s, sep), sep) == s,
    decreases s.len(),
{
    if s.len() == 0 {
    } else if starts_with(s, sep) {
        let tail = s.skip(sep.len() as int);
        lemma_join_split(tail, sep);
        lemma_split_len(tail, sep);
        let parts = seq![Seq::<char>::empty()] + split_seq(tail, sep);
        assert(parts.skip(1) =~= split_seq(tail, sep));
        assert(join_seq(parts, sep) =~= s) by {
            assert(s.subrange(0, sep.len() as int) == sep);
            assert(Seq::<char>::empty() + sep + join_seq(split_seq(tail, sep), sep) =~= s);
        }
    } else {
        let rest = split_seq(s.skip(1), sep);
        lemma_join_split(s.skip(1), sep);
        lemma_split_len(s.skip(1), sep);
        let parts = seq![seq![s[0]] + rest[0]] + rest.skip(1);
        if rest.len() == 1 {
            assert(parts.len() == 1);
            assert(join_seq(rest, sep) == rest[0]);
            assert(parts[0] =~= s);
        } else {
            assert(parts.len() >= 2);
            assert(parts.skip(1) =~= rest.skip(1));
            assert(join_seq(parts, sep) == parts[0] + sep + join_seq(rest.skip(1), sep));
            assert(join_seq(rest, sep) == rest[0] + sep + join_seq(rest.skip(1), sep));
            assert(parts[0] + sep + join_seq(rest.skip(1), sep) =~= seq![s[0]] + (rest[0] + sep
                + join_seq(rest.skip(1), sep)));
            assert(seq![s[0]] + s.skip(1) =~= s);
        }
    }
}

/// `parts` with `pre` prefixed onto its first segment.
spec fn cons_head(pre: Seq<char>, parts: Seq<Seq<char>>) -> Seq<Seq<char>> {
    seq![pre + parts[0]] + parts.skip(1)
}

/// Whether `sep` occurs in `s` starting at index `i`.
fn matches_at(s: &[char], sep: &[char], i: usize) -> (r: bool)
    requires
        i <= s@.len(),
    ensures
        r == (i + sep@.len() <= s@.len() && starts_with(s@.skip(i as int), sep@)),
{
    let n = s.len();
    let m = sep.len();
    if n - i < m {
        return false;
    }
    let mut j: usize = 0;
    while j < m
        invariant
            0 <= j <= m == sep@.len(),
            i + m <= n == s@.len(),
            forall|k: int| 0 <= k < j ==> s@[i + k] == sep@[k],
        decreases m - j,
    {
        if s[i + j] != sep[j] {
            proof {
                assert(s@.skip(i as int).subrange(0, sep@.len() as int)[j as int] == s@[i + j]);
            }
            return false;
        }
        j = j + 1;
    }
    proof {
        assert(s@.skip(i as int).subrange(0, sep@.len() as int) =~= sep@);
    }
    true
}

/// `s` divided at every occurrence of `sep`.
pub fn split(s: &[char], sep: &[char]) -> (parts: Vec<Vec<char>>)
    requires
        sep@.len() >= 1,
    ensures
        parts.deep_view() == split_seq(s@, sep@),
{
    let n = s.len();
    let mut done: Vec<Vec<char>> = Vec::new();
    let mut cur: Vec<char> = Vec::new();
    let mut i: usize = 0;
    proof {
        lemma_split_len(s@, sep@);
        assert(s@.skip(0) =~= s@);
        assert(done.deep_view() + cons_head(cur@, split_seq(s@, sep@)) =~~= split_seq(s@, sep@));
    }
    while i < n
        invariant
            0 <= i <= n == s@.len(),
            sep@.len() >= 1,
            split_seq(s@, sep@) == done.deep_view() + cons_head(
                cur@,
                split_seq(s@.skip(i as int), sep@),
            ),
        decreases n - i,
    {
        let ghost dv = done.deep_view();
        let ghost cv = cur@;
        let ghost oldi = i as int;
        let ghost t = s@.skip(i as int);
        if matches_at(s, sep, i) {
            let ghost x = split_seq(s@.skip(oldi + sep@.len()), sep@);
            proof {
                assert(t.skip(sep@.len() as int) =~= s@.skip(oldi + sep@.len()));
                lemma_split_len(s@.skip(oldi + sep@.len()), sep@);
                assert(split_seq(t, sep@) == seq![Seq::<char>::empty()] + x);
                assert(cons_head(cv, seq![Seq::<char>::empty()] + x) =~~= seq![cv] + x);
            }
            done.push(cur);
            cur = Vec::new();
            i = i + sep.len();
            proof {
                assert(s@.skip(i as int) == s@.skip(oldi + sep@.len()));
                assert(done.deep_view() =~~= dv.push(cv));
                assert(cons_head(cur@, x) =~~= x);
                assert(dv.push(cv) + x =~~= dv + (seq![cv] + x));
                assert(split_seq(s@, sep@) == done.deep_view() + cons_head(
                    cur@,
                    split_seq(s@.skip(i as int), sep@),
                ));
            }
        } else {
            let ghost x = split_seq(s@.skip(oldi + 1), sep@);
            proof {
                assert(t.len() > 0);
                assert(t.skip(1) =~= s@.skip(oldi + 1));
                lemma_split_len(s@.skip(oldi + 1), sep@);
                assert(t[0] == s@[oldi]);
                assert(split_seq(t, sep@) == cons_head(seq![t[0]], x));
                assert(cons_head(cv, cons_head(seq![t[0]], x)) =~~= cons_head(cv.push(s@[oldi]), x));
            }
            let c = s[i];
            cur.push(c);
            i = i + 1;
            proof {
                assert(cur@ == cv.push(s@[oldi]));
                assert(split_seq(s@, sep@) == done.deep_view() + cons_head(
                    cur@,
                    split_seq(s@.skip(i as int), sep@),
                ));
            }
        }
    }
    let ghost dv = done.deep_view();
    let ghost cv = cur@;
    proof {
        assert(s@.skip(n as int) =~= Seq::<char>::empty());
        assert(cons_head(cv, split_seq(s@.skip(n as int), sep@)) =~~= seq![cv]);
    }
    done.push(cur);
    proof {
        assert(done.deep_view() =~~= dv.push(cv));
        assert(dv.push(cv) =~~= dv + seq![cv]);
    }
    done
}

/// Appends the characters of `src` onto `dst`.
pub fn extend_chars(dst: &mut Vec<char>, src: &[char])
    ensures
        final(dst)@ == old(dst)@ + src@,
{
    let n = src.len();
    let mut i: usize = 0;
    while i < n
        invariant
            0 <= i <= n == src@.len(),
            dst@ == old(dst)@ + src@.take(i as int),
        decreases n - i,
    {
        dst.push(src[i]);
        i = i + 1;
        proof {
            assert(old(dst)@ + src@.take(i as int) =~= (old(dst)@ + src@.take(i - 1)).push(
                src@[i - 1],
            ));
        }
    }
    proof {
        assert(src@.take(n as int) =~= src@);
    }
}

/// The segments of `parts` from index `from` on, joined with `sep`.
pub fn join(parts: &Vec<Vec<char>>, from: usize, sep: &[char]) -> (r: Vec<char>)
    requires
        from <= parts@.len(),
    ensures
        r@ == join_seq(parts.deep_view().skip(from as int), sep@),
    decreases parts@.len() - from,
{
    let n = parts.len();
    if from >= n {
        proof {
            assert(parts.deep_view().skip(from as int) =~= Seq::<Seq<char>>::empty());
        }
        Vec::new()
    } else if from + 1 == n {
        proof {
            assert(parts.deep_view().skip(from as int).len() == 1);
            assert(parts.deep_view().skip(from as int)[0] == parts@[from as int]@);
        }
        copy_range(parts[from].as_slice(), 0, parts[from].len())
    } else {
        let mut out = copy_range(parts[from].as_slice(), 0, parts[from].len());
        proof {
            assert(out@ =~= parts@[from as int]@);
        }
        extend_chars(&mut out, sep);
        let tail = join(parts, from + 1, sep);
        extend_chars(&mut out, tail.as_slice());
        proof {
            let d = parts.deep_view();
            assert(d.skip(from as int).len() >= 2);
            assert(d.skip(from as int)[0] == d[from as int]);
            assert(d.skip(from as int).skip(1) =~= d.skip(from + 1));
            assert(out@ =~= d.skip(from as int)[0] + sep@ + join_seq(d.skip(from + 1), sep@));
        }
        out
    }
}

/// The two-character line separator of the wire syntax.
pub open spec fn crlf() -> Seq<char> {
    seq!['\r', '\n']
}

/// Whether `s` is free of the line-separator pair.
pub open spec fn no_crlf(s: Seq<char>) -> bool {
    forall|i: int| #![trigger s[i]] 0 <= i < s.len() - 1 ==> !(s[i] == '\r' && s[i + 1] == '\n')
}

/// Splitting on a single character peels off a prefix free of it.
pub proof fn lemma_split_prepend_char(a: Seq<char>, b: Seq<char>, c: char)
    requires
        !a.contains(c),
    ensures
        split_seq(a + seq![c] + b, seq![c]) == seq![a] + split_seq(b, seq![c]),
{
    let sep = seq![c];
    assert forall|i: int|
        0 <= i < a.len() implies #[trigger] (a + sep + b).subrange(i, i + sep.len()) != sep by {
        assert((a + sep + b).subrange(i, i + 1) =~= seq![a[i]]);
        if (a + sep + b).subrange(i, i + sep.len()) == sep {
            assert(seq![a[i]][0] == c);
            assert(a.contains(c));
        }
    }
    lemma_split_prepend(a, b, sep);
}

/// Splitting on the line separator peels off a line free of it.
pub proof fn lemma_split_prepend_crlf(a: Seq<char>, b: Seq<char>)
    requires
        no_crlf(a),
    ensures
        split_seq(a + crlf() + b, crlf()) == seq![a] + split_seq(b, crlf()),
{
    let sep = crlf();
    let s = a + sep + b;
    assert forall|i: int|
        0 <= i < a.len() implies #[trigger] s.subrange(i, i + sep.len()) != sep by {
        if s.subrange(i, i + sep.len()) == sep {
            assert(s.subrange(i, i + 2)[0] == '\r');
            assert(s.subrange(i, i + 2)[1] == '\n');
            assert(s[i] == '\r');
            assert(s[i + 1] == '\n');
            if i + 1 < a.len() {
                assert(a[i] == '\r' && a[i + 1] == '\n');
            } else {
                assert(s[i + 1] == sep[0]);
            }
        }
    }
    lemma_split_prepend(a, b, sep);
}

/// The index of the first occurrence of `c` in `s`, or `-1`.
pub open spec fn find_char(s: Seq<char>, c: char) -> int
    decreases s.len(),
{
    if s.len() == 0 {
        -1
    } else if s[0] == c {
        0
    } else if find_char(s.skip(1), c) == -1 {
        -1
    } else {
        1 + find_char(s.skip(1), c)
    }
}

/// `find_char` returns `-1` exactly when `c` is absent, and otherwise
/// the least index holding `c`.
pub proof fn lemma_find_char(s: Seq<char>, c: char)
    ensures
        find_char(s, c) == -1 ==> forall|j: int| 0 <= j < s.len() ==> s[j] != c,
        find_char(s, c) != -1 ==> 0 <= find_char(s, c) < s.len() && s[find_char(s, c)] == c
            && forall|j: int| 0 <= j < find_char(s, c) ==> s[j] != c,
    decreases s.len(),
{
    if s.len() == 0 {
    } else if s[0] == c {
    } else {
        lemma_find_char(s.skip(1), c);
        assert(forall|j: int| 1 <= j < s.len() ==> s[j] == s.skip(1)[j - 1]);
    }
}

/// Whether two character slices hold the same characters.
pub fn chars_eq(a: &[char], b: &[char]) -> (r: bool)
    ensures
        r == (a@ == b@),
{
    if a.len() != b.len() {
        proof {
            assert(a@.len() != b@.len());
        }
        return false;
    }
    let n = a.len();
    let mut i: usize = 0;
    while i < n
        invariant
            0 <= i <= n,
            n == a@.len() == b@.len(),
            forall|j: int| 0 <= j < i ==> a@[j] == b@[j],
        decreases n - i,
    {
        if a[i] != b[i] {
            return false;
        }
        i = i + 1;
    }
    proof {
        assert(a@ =~= b@);
    }
    true
}

/// The first index at or after `from` holding `c`.
pub fn find_from(s: &[char], from: usize, c: char) -> (r: Option<usize>)
    requires
        from <= s@.len(),
    ensures
        (r matches Some(i) ==> from <= i < s@.len() && s@[i as int] == c && forall|j: int|
            from <= j < i ==> s@[j] != c),
        r is None ==> forall|j: int| from <= j < s@.len() ==> s@[j] != c,
{
    let n = s.len();
    let mut i: usize = from;
    while i < n
        invariant
            from <= i <= n == s@.len(),
            forall|j: int| from <= j < i ==> s@[j] != c,
        decreases n - i,
    {
        if s[i] == c {
            return Some(i);
        }
        i = i + 1;
    }
    None
}

/// `c` with an ASCII lower-case letter mapped to its upper-case form;
/// every other character is unchanged.
pub open spec fn to_upper_char(c: char) -> char {
    if 97 <= c as int <= 122 {
        (c as int - 32) as char
    } else {
        c
    }
}

/// `s` upper-cased character by character.
pub open spec fn to_upper_seq(s: Seq<char>) -> Seq<char> {
    s.map_values(|c: char| to_upper_char(c))
}

/// One character upper-cased.
pub fn upper_char(c: char) -> (r: char)
    ensures
        r == to_upper_char(c),
{
    let u = c as u32;
    if 97 <= u && u <= 122 {
        ((u - 32) as u8) as char
    } else {
        c
    }
}

/// A fresh vector holding `s` upper-cased.
pub fn to_upper(s: &[char]) -> (v: Vec<char>)
    ensures
        v@ == to_upper_seq(s@),
{
    let n = s.len();
    let mut v: Vec<char> = Vec::new();
    let mut i: usize = 0;
    while i < n
        invariant
            0 <= i <= n == s@.len(),
            v@ == to_upper_seq(s@.take(i as int)),
        decreases n - i,
    {
        v.push(upper_char(s[i]));
        i = i + 1;
        proof {
            assert(v@ =~= to_upper_seq(s@.take(i as int)));
        }
    }
    proof {
        assert(s@.take(n as int) =~= s@);
    }
    v
}

/// Whether `c` is an ASCII decimal digit.
pub open spec fn is_digit(c: char) -> bool {
    48 <= c as int <= 57
}

/// The numeric value of a digit character.
pub open spec fn digit_val(c: char) -> int {
    c as int - 48
}

/// Whether every character of `s` is a decimal digit.
pub open spec fn all_digits(s: Seq<char>) -> bool {
    forall|j: int| 0 <= j < s.len() ==> is_digit(s[j])
}

/// The integer denoted by the digit string `s`, most significant first.
pub open spec fn dec_value(s: Seq<char>) -> int
    decreases s.len(),
{
    if s.len() == 0 {
        0
    } else {
        dec_value(s.take(s.len() - 1)) * 10 + digit_val(s[s.len() - 1])
    }
}

/// Whether `s` is a decimal numeral whose value fits in a `u32`.
pub open spec fn is_dec_u32(s: Seq<char>) -> bool {
    s.len() > 0 && all_digits(s) && dec_value(s) <= u32::MAX
}

pub proof fn lemma_dec_value_nonneg(s: Seq<char>)
    requires
        all_digits(s),
    ensures
        dec_value(s) >= 0,
    decreases s.len(),
{
    if s.len() > 0 {
        assert(all_digits(s.take(s.len() - 1)));
        lemma_dec_value_nonneg(s.take(s.len() - 1));
    }
}

/// A digit string's value never falls below the value of a prefix.
pub proof fn lemma_dec_value_prefix(s: Seq<char>, i: int)
    requires
        all_digits(s),
        0 <= i <= s.len(),
    ensures
        dec_value(s.take(i)) <= dec_value(s),
    decreases s.len() - i,
{
    if i < s.len() {
        assert(all_digits(s.take(i + 1)));
        assert(s.take(i + 1).take(i) =~= s.take(i));
        lemma_dec_value_nonneg(s.take(i));
        assert(dec_value(s.take(i + 1)) == dec_value(s.take(i)) * 10 + digit_val(s.take(i + 1)[i]));
        lemma_dec_value_prefix(s, i + 1);
    } else {
        assert(s.take(i) =~= s);
    }
}

/// The decimal numeral of `n`: most significant digit first, no
/// leading zeros.
pub open spec fn dec_string(n: int) -> Seq<char>
    decreases n,
{
    if n < 10 {
        seq![(48 + n) as char]
    } else {
        dec_string(n / 10) + seq![(48 + n % 10) as char]
    }
}

/// A numeral built by `dec_string` is made of digits and denotes the
/// number it was built from.
pub proof fn lemma_dec_string_value(n: int)
    requires
        0 <= n,
    ensures
        all_digits(dec_string(n)),
        dec_string(n).len() >= 1,
        dec_value(dec_string(n)) == n,
    decreases n,
{
    if n < 10 {
        let s = dec_string(n);
        assert(dec_value(Seq::<char>::empty()) == 0);
        assert(s.take(0) =~= Seq::<char>::empty());
        assert(dec_value(s) == digit_val((48 + n) as char));
    } else {
        lemma_dec_string_value(n / 10);
        let a = dec_string(n / 10);
        let c = (48 + n % 10) as char;
        assert((a + seq![c]).take(a.len() as int) =~= a);
        assert(dec_value(a + seq![c]) == dec_value(a) * 10 + digit_val(c));
        assert(n / 10 * 10 + n % 10 == n) by {
            vstd::arithmetic::div_mod::lemma_fundamental_div_mod(n, 10);
        }
    }
}

/// The decimal numeral of `n`, one character per digit.
pub fn u32_to_dec(n: u32) -> (v: Vec<char>)
    ensures
        v@ == dec_string(n as int),
    decreases n,
{
    if n < 10 {
        let mut v: Vec<char> = Vec::new();
        v.push(((48 + n) as u8) as char);
        proof {
            assert(v@ =~= dec_string(n as int));
        }
        v
    } else {
        let mut v = u32_to_dec(n / 10);
        v.push(((48 + n % 10) as u8) as char);
        proof {
            assert(v@ =~= dec_string(n as int));
        }
        v
    }
}

/// The value of a digit, or `None` for any other character.
pub fn digit_of(c: char) -> (r: Option<u32>)
    ensures
        r is Some <==> is_digit(c),
        r matches Some(d) ==> d == digit_val(c),
{
    let u = c as u32;
    if 48 <= u && u <= 57 {
        Some(u - 48)
    } else {
        None
    }
}

/// The value of the decimal numeral `s`, or `None` when `s` is empty,
/// holds a non-digit, or denotes a value beyond `u32::MAX`.
pub fn parse_u32(s: &[char]) -> (r: Option<u32>)
    ensures
        r is Some <==> is_dec_u32(s@),
        r matches Some(x) ==> x == dec_value(s@),
{
    let n = s.len();
    if n == 0 {
        return None;
    }
    let mut acc: u64 = 0;
    let mut i: usize = 0;
    while i < n
        invariant
            0 <= i <= n == s@.len(),
            all_digits(s@.take(i as int)),
            acc == dec_value(s@.take(i as int)),
            acc <= u32::MAX,
        decreases n - i,
    {
        match digit_of(s[i]) {
            None => {
                return None;
            },
            Some(d) => {
                proof {
                    assert(s@.take(i + 1).take(i as int) =~= s@.take(i as int));
                    assert(all_digits(s@.take(i + 1)));
                }
                acc = acc * 10 + (d as u64);
                i = i + 1;
                if acc > u32::MAX as u64 {
                    proof {
                        if is_dec_u32(s@) {
                            lemma_dec_value_prefix(s@, i as int);
                        }
                    }
                    return None;
                }
            },
        }
    }
    proof {
        assert(s@.take(n as int) =~= s@);
    }
    Some(acc as u32)
}

} // verus!
