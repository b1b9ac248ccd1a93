//! The line-oriented manifest of a certificate verification job: exactly one
//! `model`, one `property` and one `certificate` directive, each with a
//! double-quoted, non-empty path.
use crate::syntax::{
    append_quoted, byte_len, byte_offset, escape_quoted_char, escaped, lemma_byte_len_at_least, lemma_line_end_at,
    lemma_line_end_bounds, lemma_raw_line_bytes, lemma_skip_bounds, line_end, next_line, quoted, raw_line,
    raw_line_exec, skip_space, skip_space_exec, unescape, unescape_exec,
};
use crate::text::{append, append_usize, chars_of, char_is_ascii_space, decimal, is_ascii_space, push_char};
use vstd::prelude::*;

verus! {

/// A parsed job: the three paths, in directive order.
#[derive(Debug, Clone, PartialEq, Eq)]
pub struct CertificateVerificationJob {
    model_path: String,
    property_path: String,
    certificate_path: String,
}

impl View for CertificateVerificationJob {
    type V = (Seq<char>, Seq<char>, Seq<char>);

    closed spec fn view(&self) -> (Seq<char>, Seq<char>, Seq<char>) {
        (self.model_path@, self.property_path@, self.certificate_path@)
    }
}

#[derive(Debug, Clone, PartialEq, Eq)]
pub enum CertificateVerificationJobParseErrorKind {
    ExpectedDirective,
    UnknownDirective { directive: String },
    ExpectedString,
    UnterminatedString,
    InvalidEscape { escape: String },
    EmptyPath { directive: String },
    TrailingInput,
    DuplicateDirective { directive: String },
    MissingDirective { directive: String },
}

/// Which way a job manifest is malformed, without the offending text.
#[derive(Debug, Clone, Copy, PartialEq, Eq, Structural)]
pub enum JobFault {
    ExpectedDirective,
    UnknownDirective,
    ExpectedString,
    UnterminatedString,
    InvalidEscape,
    EmptyPath,
    TrailingInput,
    DuplicateDirective,
    MissingDirective,
}

impl View for CertificateVerificationJobParseErrorKind {
    /// The fault and the text it carries (empty where it carries none).
    type V = (JobFault, Seq<char>);

    open spec fn view(&self) -> (JobFault, Seq<char>) {
        match self {
            CertificateVerificationJobParseErrorKind::ExpectedDirective => (JobFault::ExpectedDirective, Seq::empty()),
            CertificateVerificationJobParseErrorKind::UnknownDirective { directive } => (
                JobFault::UnknownDirective,
                directive@,
            ),
            CertificateVerificationJobParseErrorKind::ExpectedString => (JobFault::ExpectedString, Seq::empty()),
            CertificateVerificationJobParseErrorKind::UnterminatedString => (
                JobFault::UnterminatedString,
                Seq::empty(),
            ),
            CertificateVerificationJobParseErrorKind::InvalidEscape { escape } => (JobFault::InvalidEscape, escape@),
            CertificateVerificationJobParseErrorKind::EmptyPath { directive } => (JobFault::EmptyPath, directive@),
            CertificateVerificationJobParseErrorKind::TrailingInput => (JobFault::TrailingInput, Seq::empty()),
            CertificateVerificationJobParseErrorKind::DuplicateDirective { directive } => (
                JobFault::DuplicateDirective,
                directive@,
            ),
            CertificateVerificationJobParseErrorKind::MissingDirective { directive } => (
                JobFault::MissingDirective,
                directive@,
            ),
        }
    }
}

/// A parse error: 1-based line, 1-based byte column, and what went wrong.
#[derive(Debug, Clone, PartialEq, Eq)]
pub struct CertificateVerificationJobParseError {
    line: usize,
    column: usize,
    kind: CertificateVerificationJobParseErrorKind,
}

impl View for CertificateVerificationJobParseError {
    type V = (nat, nat, (JobFault, Seq<char>));

    closed spec fn view(&self) -> (nat, nat, (JobFault, Seq<char>)) {
        (self.line as nat, self.column as nat, self.kind@)
    }
}

// ---------------------------------------------------------------------------
// The manifest grammar.
// ---------------------------------------------------------------------------

/// The first index at or after `i` that holds ASCII whitespace, or the
/// length.
pub open spec fn word_end(l: Seq<char>, i: int) -> int
    decreases l.len() - i,
{
    if i < 0 || i >= l.len() {
        l.len() as int
    } else if is_ascii_space(l[i]) {
        i
    } else {
        word_end(l, i + 1)
    }
}

/// The paths seen so far: model, property, certificate.
pub type JobSlots = (Option<Seq<char>>, Option<Seq<char>>, Option<Seq<char>>);

/// A fault at a character index of a line.
pub type LineFault = (int, (JobFault, Seq<char>));

pub open spec fn known_directive(d: Seq<char>) -> bool {
    d == "model"@ || d == "property"@ || d == "certificate"@
}

pub open spec fn slot(st: JobSlots, d: Seq<char>) -> Option<Seq<char>> {
    if d == "model"@ {
        st.0
    } else if d == "property"@ {
        st.1
    } else {
        st.2
    }
}

pub open spec fn fill(st: JobSlots, d: Seq<char>, v: Seq<char>) -> JobSlots {
    if d == "model"@ {
        (Some(v), st.1, st.2)
    } else if d == "property"@ {
        (st.0, Some(v), st.2)
    } else {
        (st.0, st.1, Some(v))
    }
}

/// Scan the rest of a double-quoted string whose opening quote is at
/// `start`, from index `i`, having decoded `acc` so far: the decoded text
/// and the index after the closing quote, or the fault.
pub open spec fn scan_quoted(l: Seq<char>, start: int, i: int, acc: Seq<char>) -> Result<(Seq<char>, int), LineFault>
    decreases l.len() - i,
{
    if i < 0 || i >= l.len() {
        Err((start, (JobFault::UnterminatedString, Seq::empty())))
    } else if l[i] == '"' {
        Ok((acc, i + 1))
    } else if l[i] == '\\' {
        if i + 1 >= l.len() {
            Err((start, (JobFault::UnterminatedString, Seq::empty())))
        } else {
            match unescape(l[i + 1]) {
                Some(c) => scan_quoted(l, start, i + 2, acc.push(c)),
                None => Err((i + 1, (JobFault::InvalidEscape, seq![l[i + 1]]))),
            }
        }
    } else {
        scan_quoted(l, start, i + 1, acc.push(l[i]))
    }
}

/// One manifest line: blank and `#` lines change nothing; a directive line
/// fills its slot, or names the fault and the index where it lies.
pub open spec fn job_line(l: Seq<char>, st: JobSlots) -> Result<JobSlots, LineFault> {
    let k = skip_space(l, 0);
    if k >= l.len() || l[k] == '#' {
        Ok(st)
    } else {
        let w = word_end(l, k);
        let d = l.subrange(k, w);
        if !known_directive(d) {
            Err((k, (JobFault::UnknownDirective, d)))
        } else if slot(st, d) is Some {
            Err((k, (JobFault::DuplicateDirective, d)))
        } else {
            let vs = skip_space(l, w);
            if vs >= l.len() || l[vs] != '"' {
                Err((vs, (JobFault::ExpectedString, Seq::empty())))
            } else {
                match scan_quoted(l, vs, vs + 1, Seq::empty()) {
                    Err(f) => Err(f),
                    Ok((v, after)) => {
                        let q = skip_space(l, after);
                        if q < l.len() {
                            Err((q, (JobFault::TrailingInput, Seq::empty())))
                        } else if v.len() == 0 {
                            Err((vs, (JobFault::EmptyPath, d)))
                        } else {
                            Ok(fill(st, d, v))
                        }
                    },
                }
            }
        }
    }
}

/// The job once every line is read: each directive is required.
pub open spec fn job_finish(st: JobSlots) -> Result<(Seq<char>, Seq<char>, Seq<char>), (nat, nat, (JobFault, Seq<char>))> {
    match st {
        (Some(m), Some(p), Some(c)) => Ok((m, p, c)),
        (None, _, _) => Err((1, 1, (JobFault::MissingDirective, "model"@))),
        (_, None, _) => Err((1, 1, (JobFault::MissingDirective, "property"@))),
        _ => Err((1, 1, (JobFault::MissingDirective, "certificate"@))),
    }
}

/// The manifest from index `p`, whose line is number `line`, with `st`
/// seen so far: the three paths, or (line, byte column, fault).
pub open spec fn job_from(s: Seq<char>, p: int, line: nat, st: JobSlots) -> Result<
    (Seq<char>, Seq<char>, Seq<char>),
    (nat, nat, (JobFault, Seq<char>)),
>
    decreases s.len() - p,
{
    if p < 0 || p >= s.len() {
        job_finish(st)
    } else {
        let l = raw_line(s, p);
        match job_line(l, st) {
            Err((i, f)) => Err((line, byte_len(l.take(i)) + 1, f)),
            Ok(st2) => {
                proof {
                    lemma_line_end_bounds(s, p);
                }
                job_from(s, next_line(s, p), line + 1, st2)
            },
        }
    }
}

/// The job a manifest describes, or the first fault in it.
pub open spec fn job_parse(s: Seq<char>) -> Result<(Seq<char>, Seq<char>, Seq<char>), (nat, nat, (JobFault, Seq<char>))> {
    job_from(s, 0, 1, (None, None, None))
}

// ---------------------------------------------------------------------------
// The canonical form.
// ---------------------------------------------------------------------------

/// The canonical manifest of a job: its three directives in order, one per
/// line, with no final line feed.
pub open spec fn canonical_text(job: (Seq<char>, Seq<char>, Seq<char>)) -> Seq<char> {
    "model "@ + quoted(job.0) + seq!['\n'] + "property "@ + quoted(job.1) + seq!['\n'] + "certificate "@ + quoted(
        job.2,
    )
}

// ---------------------------------------------------------------------------
// Lemmas.
// ---------------------------------------------------------------------------

proof fn lemma_word_end_at(l: Seq<char>, i: int, e: int)
    requires
        0 <= i <= e <= l.len(),
        forall|j: int| i <= j < e ==> !is_ascii_space(l[j]),
        e < l.len() ==> is_ascii_space(l[e]),
    ensures
        word_end(l, i) == e,
    decreases e - i,
{
    if i < e {
        lemma_word_end_at(l, i + 1, e);
    }
}

/// Scanning over the escaped form of `v` decodes exactly `v`.
proof fn lemma_scan_escaped(l: Seq<char>, start: int, i: int, acc: Seq<char>, v: Seq<char>)
    requires
        0 <= i,
        i + escaped(v).len() <= l.len(),
        l.subrange(i, i + escaped(v).len()) == escaped(v),
    ensures
        scan_quoted(l, start, i, acc) == scan_quoted(l, start, i + escaped(v).len(), acc + v),
    decreases v.len(),
{
    if v.len() == 0 {
        assert(acc + v =~= acc);
    } else {
        let c = v[0];
        let head = escape_quoted_char(c);
        let rest = v.drop_first();
        assert(escaped(v) == head + escaped(rest));
        assert(l.subrange(i, i + head.len()) =~= head) by {
            assert(l.subrange(i, i + head.len()) =~= l.subrange(i, i + escaped(v).len()).subrange(0, head.len() as int));
        }
        assert(l.subrange(i + head.len(), i + head.len() + escaped(rest).len()) =~= escaped(rest)) by {
            assert(l.subrange(i + head.len(), i + head.len() + escaped(rest).len()) =~= l.subrange(
                i,
                i + escaped(v).len(),
            ).subrange(head.len() as int, escaped(v).len() as int));
        }
        assert(l[i] == head[0]);
        if head.len() == 2 {
            assert(l[i + 1] == head[1]);
            assert(unescape(head[1]) == Some(c));
        }
        lemma_scan_escaped(l, start, i + head.len(), acc.push(c), rest);
        assert(acc.push(c) + rest =~= acc + v);
    }
}

/// A directive line in canonical form fills its slot.
proof fn lemma_canonical_line(d: Seq<char>, v: Seq<char>, st: JobSlots)
    requires
        known_directive(d),
        slot(st, d) is None,
        v.len() > 0,
        d.len() > 0,
        forall|j: int| 0 <= j < d.len() ==> !is_ascii_space(#[trigger] d[j]) && d[j] != '#',
    ensures
        job_line(d + seq![' '] + quoted(v), st) == Ok::<JobSlots, LineFault>(fill(st, d, v)),
{
    let l = d + seq![' '] + quoted(v);
    let e = escaped(v);
    let n = d.len() as int;
    assert(l[0] == d[0]);
    assert(skip_space(l, 0) == 0);
    assert forall|j: int| 0 <= j < n implies !is_ascii_space(l[j]) by {
        assert(l[j] == d[j]);
    }
    assert(l[n] == ' ');
    lemma_word_end_at(l, 0, n);
    assert(l.subrange(0, n) =~= d);
    assert(l[n + 1] == '"');
    assert(skip_space(l, n + 1) == n + 1);
    assert(skip_space(l, n) == n + 1);
    assert(l.subrange(n + 2, n + 2 + e.len()) =~= e);
    lemma_scan_escaped(l, n + 1, n + 2, Seq::empty(), v);
    assert(Seq::<char>::empty() + v =~= v);
    assert(l[n + 2 + e.len()] == '"');
    assert(l.len() == n + 3 + e.len());
    assert(skip_space(l, l.len() as int) == l.len());
}

/// Where a directive line `t` ending in a closing quote sits at `q` in `s`,
/// followed by a line feed or the end, it is the raw line at `q`.
pub(crate) proof fn lemma_line_at(s: Seq<char>, q: int, t: Seq<char>)
    requires
        0 <= q,
        q + t.len() <= s.len(),
        t.len() > 0,
        t.last() == '"',
        s.subrange(q, q + t.len()) == t,
        forall|j: int| 0 <= j < t.len() ==> t[j] != '\n',
        q + t.len() < s.len() ==> s[q + t.len()] == '\n',
    ensures
        raw_line(s, q) == t,
        next_line(s, q) == if q + t.len() < s.len() {
            q + t.len() + 1
        } else {
            s.len() as int
        },
{
    assert forall|j: int| q <= j < q + t.len() implies s[j] != '\n' by {
        assert(s[j] == s.subrange(q, q + t.len())[j - q]);
    }
    lemma_line_end_at(s, q, q + t.len());
}

/// The canonical manifest of a job with non-empty paths parses back to
/// exactly that job.
#[verifier::rlimit(40)]
pub proof fn lemma_canonical_round_trip(job: (Seq<char>, Seq<char>, Seq<char>))
    requires
        job.0.len() > 0,
        job.1.len() > 0,
        job.2.len() > 0,
    ensures
        job_parse(canonical_text(job)) == Ok::<_, (nat, nat, (JobFault, Seq<char>))>(job),
{
    let m = "model"@;
    let p = "property"@;
    let c = "certificate"@;
    lemma_directive_texts();
    let l1 = m + seq![' '] + quoted(job.0);
    let l2 = p + seq![' '] + quoted(job.1);
    let l3 = c + seq![' '] + quoted(job.2);
    let s = canonical_text(job);
    assert(s =~= l1 + seq!['\n'] + l2 + seq!['\n'] + l3);
    lemma_directive_line_feed(m, job.0);
    lemma_directive_line_feed(p, job.1);
    lemma_directive_line_feed(c, job.2);
    let st0: JobSlots = (None, None, None);
    let st1: JobSlots = (Some(job.0), None, None);
    let st2: JobSlots = (Some(job.0), Some(job.1), None);
    let st3: JobSlots = (Some(job.0), Some(job.1), Some(job.2));
    let q: int = l1.len() as int + 1;
    let r: int = q + l2.len() + 1;
    assert(s.subrange(0, l1.len() as int) =~= l1);
    assert(s.subrange(q, q + l2.len()) =~= l2);
    assert(s.subrange(r, r + l3.len()) =~= l3);
    lemma_line_at(s, 0, l1);
    lemma_line_at(s, q, l2);
    lemma_line_at(s, r, l3);
    lemma_canonical_line(m, job.0, st0);
    lemma_canonical_line(p, job.1, st1);
    lemma_canonical_line(c, job.2, st2);
    assert(fill(st2, c, job.2) == st3);
    assert(r + l3.len() == s.len());
    assert(next_line(s, r) == s.len());
    assert(job_from(s, s.len() as int, 4, st3) == job_finish(st3));
    assert(job_from(s, r, 3, st2) == job_finish(st3));
    assert(job_from(s, q, 2, st1) == job_from(s, r, 3, st2));
    assert(job_from(s, 0, 1, st0) == job_from(s, q, 2, st1));
}

/// The directive names: their characters and how the canonical form
/// writes them with their separating space.
proof fn lemma_directive_texts()
    ensures
        "model "@ == "model"@ + seq![' '],
        "property "@ == "property"@ + seq![' '],
        "certificate "@ == "certificate"@ + seq![' '],
        "model"@ != "property"@,
        "model"@ != "certificate"@,
        "property"@ != "certificate"@,
        "model"@.len() > 0,
        "property"@.len() > 0,
        "certificate"@.len() > 0,
        forall|j: int| 0 <= j < "model"@.len() ==> !is_ascii_space(#[trigger] "model"@[j]) && "model"@[j] != '#'
            && "model"@[j] != '\n',
        forall|j: int| 0 <= j < "property"@.len() ==> !is_ascii_space(#[trigger] "property"@[j]) && "property"@[j]
            != '#' && "property"@[j] != '\n',
        forall|j: int| 0 <= j < "certificate"@.len() ==> !is_ascii_space(#[trigger] "certificate"@[j])
            && "certificate"@[j] != '#' && "certificate"@[j] != '\n',
{
    reveal_strlit("model ");
    reveal_strlit("property ");
    reveal_strlit("certificate ");
    reveal_strlit("model");
    reveal_strlit("property");
    reveal_strlit("certificate");
    assert("model "@ =~= "model"@ + seq![' ']);
    assert("property "@ =~= "property"@ + seq![' ']);
    assert("certificate "@ =~= "certificate"@ + seq![' ']);
    assert("model"@.len() != "property"@.len());
    assert("model"@.len() != "certificate"@.len());
    assert("property"@.len() != "certificate"@.len());
}

/// A canonical directive line holds no raw line feed and ends in a quote.
proof fn lemma_directive_line_feed(d: Seq<char>, v: Seq<char>)
    requires
        forall|j: int| 0 <= j < d.len() ==> #[trigger] d[j] != '\n',
    ensures
        forall|j: int| 0 <= j < (d + seq![' '] + quoted(v)).len() ==> (d + seq![' '] + quoted(v))[j] != '\n',
        (d + seq![' '] + quoted(v)).last() == '"',
        (d + seq![' '] + quoted(v)).len() > 0,
{
    lemma_no_line_feed(v);
    let t = d + seq![' '] + quoted(v);
    assert forall|j: int| 0 <= j < t.len() implies t[j] != '\n' by {
        if j < d.len() {
            assert(t[j] == d[j]);
        } else if j > d.len() {
            assert(t[j] == quoted(v)[j - d.len() - 1]);
        }
    }
}

/// A quoted path holds no raw line feed.
pub(crate) proof fn lemma_no_line_feed(v: Seq<char>)
    ensures
        forall|j: int| 0 <= j < quoted(v).len() ==> quoted(v)[j] != '\n',
        quoted(v).last() == '"',
        quoted(v)[0] == '"',
{
    lemma_escaped_no_line_feed(v);
    let e = escaped(v);
    assert forall|j: int| 0 <= j < quoted(v).len() implies quoted(v)[j] != '\n' by {
        if 1 <= j < 1 + e.len() {
            assert(quoted(v)[j] == e[j - 1]);
        }
    }
}

proof fn lemma_escaped_no_line_feed(v: Seq<char>)
    ensures
        forall|j: int| 0 <= j < escaped(v).len() ==> escaped(v)[j] != '\n',
    decreases v.len(),
{
    if v.len() > 0 {
        lemma_escaped_no_line_feed(v.drop_first());
        let h = escape_quoted_char(v[0]);
        let t = escaped(v.drop_first());
        assert forall|j: int| 0 <= j < (h + t).len() implies (h + t)[j] != '\n' by {
            if j >= h.len() {
                assert((h + t)[j] == t[j - h.len()]);
            }
        }
    }
}

// ---------------------------------------------------------------------------
// Executable parts.
// ---------------------------------------------------------------------------

pub open spec fn slot_view(o: Option<String>) -> Option<Seq<char>> {
    match o {
        Some(s) => Some(s@),
        None => None,
    }
}

fn word_end_exec(l: &Vec<char>, i: usize) -> (j: usize)
    requires
        i <= l@.len(),
    ensures
        j == word_end(l@, i as int),
{
    let mut j = i;
    while j < l.len() && !char_is_ascii_space(l[j])
        invariant
            i <= j <= l@.len(),
            word_end(l@, j as int) == word_end(l@, i as int),
        decreases l.len() - j,
    {
        j += 1;
    }
    j
}

/// A string holding the one character `c`.
fn char_text(c: char) -> (s: String)
    ensures
        s@ == seq![c],
{
    let mut s = String::new();
    push_char(&mut s, c);
    s
}

/// Decode the double-quoted string whose opening quote is at `start`.
fn scan_quoted_exec(l: &Vec<char>, start: usize) -> (r: Result<
    (String, usize),
    (usize, CertificateVerificationJobParseErrorKind),
>)
    requires
        start < l@.len(),
        l@[start as int] == '"',
    ensures
        match scan_quoted(l@, start as int, start + 1, Seq::empty()) {
            Ok((v, after)) => r matches Ok((s, a)) && s@ == v && a == after,
            Err((i, f)) => r matches Err((j, k)) && j == i && k@ == f,
        },
{
    let n = l.len();
    let mut out = String::new();
    let mut i: usize = start + 1;
    while i < l.len() && l[i] != '"'
        invariant
            start < i <= l@.len(),
            scan_quoted(l@, start as int, i as int, out@) == scan_quoted(l@, start as int, start + 1, Seq::empty()),
        decreases l.len() - i,
    {
        if l[i] == '\\' {
            if i + 1 >= l.len() {
                return Err((start, CertificateVerificationJobParseErrorKind::UnterminatedString));
            }
            match unescape_exec(l[i + 1]) {
                Some(c) => {
                    push_char(&mut out, c);
                    i = i + 2;
                },
                None => {
                    let escape = char_text(l[i + 1]);
                    return Err((i + 1, CertificateVerificationJobParseErrorKind::InvalidEscape { escape }));
                },
            }
        } else {
            push_char(&mut out, l[i]);
            i = i + 1;
        }
    }
    if i >= l.len() {
        return Err((start, CertificateVerificationJobParseErrorKind::UnterminatedString));
    }
    Ok((out, i + 1))
}

/// The characters of line `l` from `from` to `to`, as a string.
fn text_of(l: &Vec<char>, from: usize, to: usize) -> (s: String)
    requires
        from <= to <= l@.len(),
    ensures
        s@ == l@.subrange(from as int, to as int),
{
    crate::text::string_of(l, from, to)
}

fn directive_name(which: u8) -> (s: String)
    requires
        which < 3,
    ensures
        s@ == if which == 0 {
            "model"@
        } else if which == 1 {
            "property"@
        } else {
            "certificate"@
        },
{
    let mut s = String::new();
    if which == 0 {
        append(&mut s, "model");
    } else if which == 1 {
        append(&mut s, "property");
    } else {
        append(&mut s, "certificate");
    }
    s
}

/// Which directive `d` names: 0, 1, 2 for model, property, certificate,
/// and 3 for none of them.
fn classify_directive(d: &String) -> (which: u8)
    ensures
        which <= 3,
        which == 0 <==> d@ == "model"@,
        which == 1 <==> d@ == "property"@,
        which == 2 <==> d@ == "certificate"@,
{
    proof {
        lemma_directive_texts();
    }
    if crate::text::same_text(d.as_str(), "model") {
        0
    } else if crate::text::same_text(d.as_str(), "property") {
        1
    } else if crate::text::same_text(d.as_str(), "certificate") {
        2
    } else {
        3
    }
}

/// Read one line into the slots, or report the index and kind of its fault.
fn job_line_exec(
    l: &Vec<char>,
    model: &mut Option<String>,
    property: &mut Option<String>,
    certificate: &mut Option<String>,
) -> (r: Result<(), (usize, CertificateVerificationJobParseErrorKind)>)
    ensures
        match job_line(l@, (slot_view(*old(model)), slot_view(*old(property)), slot_view(*old(certificate)))) {
            Ok(st) => r is Ok && st == (slot_view(*final(model)), slot_view(*final(property)), slot_view(
                *final(certificate),
            )),
            Err((i, f)) => r matches Err((j, k)) && j == i && k@ == f,
        },
{
    let ghost st: JobSlots = (slot_view(*model), slot_view(*property), slot_view(*certificate));
    let k = skip_space_exec(l, 0);
    if k >= l.len() || l[k] == '#' {
        return Ok(());
    }
    proof {
        lemma_skip_bounds(l@, 0);
    }
    let w = word_end_exec(l, k);
    proof {
        lemma_word_bounds(l@, k as int);
    }
    let d = text_of(l, k, w);
    let which = classify_directive(&d);
    if which == 3 {
        return Err((k, CertificateVerificationJobParseErrorKind::UnknownDirective { directive: d }));
    }
    let taken = if which == 0 {
        model.is_some()
    } else if which == 1 {
        property.is_some()
    } else {
        certificate.is_some()
    };
    if taken {
        return Err((k, CertificateVerificationJobParseErrorKind::DuplicateDirective { directive: d }));
    }
    let vs = skip_space_exec(l, w);
    if vs >= l.len() || l[vs] != '"' {
        return Err((vs, CertificateVerificationJobParseErrorKind::ExpectedString));
    }
    let (value, after) = match scan_quoted_exec(l, vs) {
        Ok(p) => p,
        Err(e) => {
            return Err(e);
        },
    };
    proof {
        assert(scan_quoted(l@, vs as int, vs + 1, Seq::empty()) matches Ok((v, a)) && v == value@ && a == after);
        lemma_scan_after(l@, vs as int, vs + 1, Seq::empty());
    }
    let q = skip_space_exec(l, after);
    if q < l.len() {
        return Err((q, CertificateVerificationJobParseErrorKind::TrailingInput));
    }
    if chars_of(value.as_str()).len() == 0 {
        return Err((vs, CertificateVerificationJobParseErrorKind::EmptyPath { directive: d }));
    }
    if which == 0 {
        *model = Some(value);
    } else if which == 1 {
        *property = Some(value);
    } else {
        *certificate = Some(value);
    }
    Ok(())
}

/// A successful scan ends inside the line.
proof fn lemma_scan_after(l: Seq<char>, start: int, i: int, acc: Seq<char>)
    requires
        0 <= i,
    ensures
        scan_quoted(l, start, i, acc) matches Ok((_, a)) ==> i < a <= l.len(),
    decreases l.len() - i,
{
    if 0 <= i < l.len() && l[i] != '"' {
        if l[i] == '\\' {
            if i + 1 < l.len() {
                match unescape(l[i + 1]) {
                    Some(c) => lemma_scan_after(l, start, i + 2, acc.push(c)),
                    None => {},
                }
            }
        } else {
            lemma_scan_after(l, start, i + 1, acc.push(l[i]));
        }
    }
}

/// Parse a certificate verification job manifest.
///
/// Each non-blank line that does not start with `#` holds one directive,
/// `model`, `property` or `certificate`, then a double-quoted path with the
/// escapes `\\`, `\"`, `\n`, `\r` and `\t`. Each directive is required once.
/// Errors carry the 1-based line and byte column of the fault; a missing
/// directive is reported at line 1, column 1.
pub fn parse_certificate_verification_job(input: &str) -> (r: Result<
    CertificateVerificationJob,
    CertificateVerificationJobParseError,
>)
    requires
        byte_len(input@) < usize::MAX,
    ensures
        match job_parse(input@) {
            Ok(job) => r matches Ok(j) && j@ == job,
            Err(e) => r matches Err(x) && x@ == e,
        },
{
    let chars = chars_of(input);
    let mut model: Option<String> = None;
    let mut property: Option<String> = None;
    let mut certificate: Option<String> = None;
    let mut p: usize = 0;
    let mut line: usize = 1;
    proof {
        lemma_byte_len_at_least(input@);
    }
    while p < chars.len()
        invariant
            chars@ == input@,
            byte_len(input@) < usize::MAX,
            chars@.len() <= byte_len(input@),
            p <= chars@.len(),
            1 <= line <= p + 1,
            job_from(chars@, p as int, line as nat, (slot_view(model), slot_view(property), slot_view(certificate)))
                == job_parse(input@),
        decreases chars.len() - p,
    {
        let (l, e) = raw_line_exec(&chars, p);
        let ghost st: JobSlots = (slot_view(model), slot_view(property), slot_view(certificate));
        proof {
            lemma_line_end_bounds(chars@, p as int);
            lemma_raw_line_bytes(chars@, p as int);
        }
        match job_line_exec(&l, &mut model, &mut property, &mut certificate) {
            Ok(()) => {},
            Err((i, kind)) => {
                proof {
                    assert(i <= l@.len()) by {
                        lemma_fault_in_line(l@, st);
                    }
                }
                let column = byte_offset(&l, i) + 1;
                return Err(CertificateVerificationJobParseError { line, column, kind });
            },
        }
        p = if e < chars.len() {
            e + 1
        } else {
            chars.len()
        };
        line = line + 1;
    }
    let m = match model {
        Some(m) => m,
        None => {
            return Err(missing(0));
        },
    };
    let pr = match property {
        Some(p) => p,
        None => {
            return Err(missing(1));
        },
    };
    let c = match certificate {
        Some(c) => c,
        None => {
            return Err(missing(2));
        },
    };
    Ok(CertificateVerificationJob { model_path: m, property_path: pr, certificate_path: c })
}

/// The fault index of a line lies within it.
proof fn lemma_fault_in_line(l: Seq<char>, st: JobSlots)
    ensures
        job_line(l, st) matches Err((i, _)) ==> 0 <= i <= l.len(),
{
    lemma_skip_bounds(l, 0);
    let k = skip_space(l, 0);
    if k < l.len() && l[k] != '#' {
        lemma_word_bounds(l, k);
        let w = word_end(l, k);
        lemma_skip_bounds(l, w);
        let vs = skip_space(l, w);
        if vs < l.len() && l[vs] == '"' {
            lemma_scan_fault(l, vs, vs + 1, Seq::empty());
            lemma_scan_after(l, vs, vs + 1, Seq::empty());
            match scan_quoted(l, vs, vs + 1, Seq::empty()) {
                Ok((_, after)) => lemma_skip_bounds(l, after),
                Err(_) => {},
            }
        }
    }
}

proof fn lemma_word_bounds(l: Seq<char>, i: int)
    requires
        0 <= i <= l.len(),
    ensures
        i <= word_end(l, i) <= l.len(),
    decreases l.len() - i,
{
    if i < l.len() && !is_ascii_space(l[i]) {
        lemma_word_bounds(l, i + 1);
    }
}

proof fn lemma_scan_fault(l: Seq<char>, start: int, i: int, acc: Seq<char>)
    requires
        0 <= start < i,
        start < l.len(),
    ensures
        scan_quoted(l, start, i, acc) matches Err((j, _)) ==> 0 <= j <= l.len(),
    decreases l.len() - i,
{
    if 0 <= i < l.len() && l[i] != '"' {
        if l[i] == '\\' {
            if i + 1 < l.len() {
                match unescape(l[i + 1]) {
                    Some(c) => lemma_scan_fault(l, start, i + 2, acc.push(c)),
                    None => {},
                }
            }
        } else {
            lemma_scan_fault(l, start, i + 1, acc.push(l[i]));
        }
    }
}

fn missing(which: u8) -> (e: CertificateVerificationJobParseError)
    requires
        which < 3,
    ensures
        e@ == (1nat, 1nat, (JobFault::MissingDirective, if which == 0 {
            "model"@
        } else if which == 1 {
            "property"@
        } else {
            "certificate"@
        })),
{
    CertificateVerificationJobParseError {
        line: 1,
        column: 1,
        kind: CertificateVerificationJobParseErrorKind::MissingDirective { directive: directive_name(which) },
    }
}

impl CertificateVerificationJob {
    pub fn model_path(&self) -> (p: &str)
        ensures
            p@ == self@.0,
    {
        self.model_path.as_str()
    }

    pub fn property_path(&self) -> (p: &str)
        ensures
            p@ == self@.1,
    {
        self.property_path.as_str()
    }

    pub fn certificate_path(&self) -> (p: &str)
        ensures
            p@ == self@.2,
    {
        self.certificate_path.as_str()
    }

    /// The three directives in canonical order, one per line, each path
    /// quoted and escaped.
    pub fn canonical_document(&self) -> (doc: String)
        ensures
            doc@ == canonical_text(self@),
    {
        let mut out = String::new();
        append(&mut out, "model ");
        append_quoted(&mut out, self.model_path.as_str());
        push_char(&mut out, '\n');
        append(&mut out, "property ");
        append_quoted(&mut out, self.property_path.as_str());
        push_char(&mut out, '\n');
        append(&mut out, "certificate ");
        append_quoted(&mut out, self.certificate_path.as_str());
        assert(out@ =~= canonical_text(self@));
        out
    }
}

impl CertificateVerificationJobParseError {
    pub fn line(&self) -> (l: usize)
        ensures
            l == self@.0,
    {
        self.line
    }

    pub fn column(&self) -> (c: usize)
        ensures
            c == self@.1,
    {
        self.column
    }

    pub fn kind(&self) -> (k: &CertificateVerificationJobParseErrorKind)
        ensures
            k@ == self@.2,
    {
        &self.kind
    }
}

/// How a fault reads in an error message.
pub open spec fn fault_text(k: (JobFault, Seq<char>)) -> Seq<char> {
    match k.0 {
        JobFault::ExpectedDirective => "expected a directive"@,
        JobFault::UnknownDirective => "unsupported directive '"@ + k.1 + "'"@,
        JobFault::ExpectedString => "expected a double-quoted string"@,
        JobFault::UnterminatedString => "unterminated double-quoted string"@,
        JobFault::InvalidEscape => "unsupported string escape '\\"@ + k.1 + "'"@,
        JobFault::EmptyPath => "'"@ + k.1 + "' path must not be empty"@,
        JobFault::TrailingInput => "unexpected trailing input after directive value"@,
        JobFault::DuplicateDirective => "duplicate singleton directive '"@ + k.1 + "'"@,
        JobFault::MissingDirective => "missing required directive '"@ + k.1 + "'"@,
    }
}

/// The full error message for line `line`, column `column` and fault `k`.
pub open spec fn job_error_text(e: (nat, nat, (JobFault, Seq<char>))) -> Seq<char> {
    "certificate verification job parse error at line "@ + decimal(e.0) + ", byte column "@ + decimal(e.1) + ": "@
        + fault_text(e.2)
}

impl CertificateVerificationJobParseError {
    /// The human-readable message of this error.
    pub fn message(&self) -> (text: String)
        ensures
            text@ == job_error_text(self@),
    {
        let mut out = String::new();
        append(&mut out, "certificate verification job parse error at line ");
        append_usize(&mut out, self.line);
        append(&mut out, ", byte column ");
        append_usize(&mut out, self.column);
        append(&mut out, ": ");
        let ghost head = out@;
        match &self.kind {
            CertificateVerificationJobParseErrorKind::ExpectedDirective => append(&mut out, "expected a directive"),
            CertificateVerificationJobParseErrorKind::UnknownDirective { directive } => {
                append(&mut out, "unsupported directive '");
                append(&mut out, directive.as_str());
                append(&mut out, "'");
            },
            CertificateVerificationJobParseErrorKind::ExpectedString => append(
                &mut out,
                "expected a double-quoted string",
            ),
            CertificateVerificationJobParseErrorKind::UnterminatedString => append(
                &mut out,
                "unterminated double-quoted string",
            ),
            CertificateVerificationJobParseErrorKind::InvalidEscape { escape } => {
                append(&mut out, "unsupported string escape '\\");
                append(&mut out, escape.as_str());
                append(&mut out, "'");
            },
            CertificateVerificationJobParseErrorKind::EmptyPath { directive } => {
                append(&mut out, "'");
                append(&mut out, directive.as_str());
                append(&mut out, "' path must not be empty");
            },
            CertificateVerificationJobParseErrorKind::TrailingInput => append(
                &mut out,
                "unexpected trailing input after directive value",
            ),
            CertificateVerificationJobParseErrorKind::DuplicateDirective { directive } => {
                append(&mut out, "duplicate singleton directive '");
                append(&mut out, directive.as_str());
                append(&mut out, "'");
            },
            CertificateVerificationJobParseErrorKind::MissingDirective { directive } => {
                append(&mut out, "missing required directive '");
                append(&mut out, directive.as_str());
                append(&mut out, "'");
            },
        }
        assert(out@ =~= job_error_text(self@));
        out
    }
}

} // verus!
