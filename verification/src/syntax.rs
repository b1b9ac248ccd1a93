//! Lexical pieces shared by the textual formats: UTF-8 byte offsets, ASCII
//! whitespace, keywords with identifier boundaries, and double-quoted
//! strings with the escapes `\\`, `\"`, `\n`, `\r` and `\t`.
use crate::text::{append, char_is_ascii_space, is_ascii_space, push_char};
use vstd::prelude::*;

verus! {

/// The number of UTF-8 bytes that encode `c`.
pub open spec fn utf8_len(c: char) -> nat {
    if (c as u32) < 0x80 {
        1
    } else if (c as u32) < 0x800 {
        2
    } else if (c as u32) < 0x10000 {
        3
    } else {
        4
    }
}

/// The number of UTF-8 bytes that encode `s`.
pub open spec fn byte_len(s: Seq<char>) -> nat
    decreases s.len(),
{
    if s.len() == 0 {
        0
    } else {
        byte_len(s.drop_last()) + utf8_len(s.last())
    }
}

pub proof fn lemma_byte_len_concat(a: Seq<char>, b: Seq<char>)
    ensures
        byte_len(a + b) == byte_len(a) + byte_len(b),
    decreases b.len(),
{
    if b.len() > 0 {
        assert((a + b).drop_last() =~= a + b.drop_last());
        lemma_byte_len_concat(a, b.drop_last());
    } else {
        assert(a + b =~= a);
    }
}

pub proof fn lemma_byte_len_at_least(s: Seq<char>)
    ensures
        byte_len(s) >= s.len(),
    decreases s.len(),
{
    if s.len() > 0 {
        lemma_byte_len_at_least(s.drop_last());
    }
}

/// A part of a text has no more bytes than the text.
pub proof fn lemma_byte_len_subrange(s: Seq<char>, a: int, b: int)
    requires
        0 <= a <= b <= s.len(),
    ensures
        byte_len(s.subrange(a, b)) <= byte_len(s),
{
    let x = s.subrange(0, a);
    let y = s.subrange(a, b);
    let z = s.subrange(b, s.len() as int);
    assert(s =~= x + y + z);
    lemma_byte_len_concat(x + y, z);
    lemma_byte_len_concat(x, y);
}

pub proof fn lemma_take_step(s: Seq<char>, i: int)
    requires
        0 <= i < s.len(),
    ensures
        byte_len(s.take(i + 1)) == byte_len(s.take(i)) + utf8_len(s[i]),
{
    assert(s.take(i + 1).drop_last() =~= s.take(i));
}

pub fn utf8_len_exec(c: char) -> (n: usize)
    ensures
        n == utf8_len(c),
{
    let u = c as u32;
    if u < 0x80 {
        1
    } else if u < 0x800 {
        2
    } else if u < 0x10000 {
        3
    } else {
        4
    }
}

/// The byte offset of character index `i` of `l`.
pub fn byte_offset(l: &Vec<char>, i: usize) -> (b: usize)
    requires
        i <= l@.len(),
        byte_len(l@) < usize::MAX,
    ensures
        b == byte_len(l@.take(i as int)),
        b <= byte_len(l@),
{
    let mut b: usize = 0;
    let mut k: usize = 0;
    assert(l@.take(0) =~= Seq::<char>::empty());
    while k < i
        invariant
            k <= i <= l@.len(),
            byte_len(l@) < usize::MAX,
            b == byte_len(l@.take(k as int)),
        decreases i - k,
    {
        proof {
            lemma_take_step(l@, k as int);
            lemma_byte_len_subrange(l@, 0, k + 1);
            assert(l@.subrange(0, k + 1) =~= l@.take(k + 1));
        }
        b = b + utf8_len_exec(l[k]);
        k += 1;
    }
    proof {
        lemma_byte_len_subrange(l@, 0, i as int);
        assert(l@.subrange(0, i as int) =~= l@.take(i as int));
    }
    b
}

/// The first index at or after `i` that does not hold ASCII whitespace, or
/// the length.
pub open spec fn skip_space(l: Seq<char>, i: int) -> int
    decreases l.len() - i,
{
    if i < 0 || i >= l.len() {
        l.len() as int
    } else if is_ascii_space(l[i]) {
        skip_space(l, i + 1)
    } else {
        i
    }
}

pub proof fn lemma_skip_bounds(l: Seq<char>, i: int)
    requires
        0 <= i <= l.len(),
    ensures
        i <= skip_space(l, i) <= l.len(),
        skip_space(l, i) < l.len() ==> !is_ascii_space(l[skip_space(l, i)]),
    decreases l.len() - i,
{
    if i < l.len() && is_ascii_space(l[i]) {
        lemma_skip_bounds(l, i + 1);
    }
}

pub fn skip_space_exec(l: &Vec<char>, i: usize) -> (j: usize)
    requires
        i <= l@.len(),
    ensures
        j == skip_space(l@, i as int),
        i <= j <= l@.len(),
{
    let mut j = i;
    while j < l.len() && char_is_ascii_space(l[j])
        invariant
            i <= j <= l@.len(),
            skip_space(l@, j as int) == skip_space(l@, i as int),
        decreases l.len() - j,
    {
        j += 1;
    }
    j
}

/// A character that may continue an identifier: ASCII letters and digits,
/// `_` and `-`.
pub open spec fn is_ident_char(c: char) -> bool {
    ('a' <= c && c <= 'z') || ('A' <= c && c <= 'Z') || ('0' <= c && c <= '9') || c == '_' || c == '-'
}

pub fn ident_char_exec(c: char) -> (r: bool)
    ensures
        r == is_ident_char(c),
{
    ('a' <= c && c <= 'z') || ('A' <= c && c <= 'Z') || ('0' <= c && c <= '9') || c == '_' || c == '-'
}

/// Keyword `kw` starts at `i` and is not followed by an identifier
/// character.
pub open spec fn keyword_at(s: Seq<char>, i: int, kw: Seq<char>) -> bool {
    &&& 0 <= i
    &&& i + kw.len() <= s.len()
    &&& s.subrange(i, i + kw.len()) == kw
    &&& (i + kw.len() == s.len() || !is_ident_char(s[i + kw.len()]))
}

pub fn keyword_exec(s: &Vec<char>, i: usize, kw: &str) -> (r: bool)
    requires
        i <= s@.len(),
    ensures
        r == keyword_at(s@, i as int, kw@),
{
    let k = crate::text::chars_of(kw);
    let n = s.len();
    if k.len() > n - i {
        return false;
    }
    let mut j: usize = 0;
    while j < k.len()
        invariant
            k@ == kw@,
            n == s@.len(),
            i + k@.len() <= n,
            j <= k@.len(),
            forall|x: int| 0 <= x < j ==> s@[i + x] == k@[x],
        decreases k.len() - j,
    {
        if s[i + j] != k[j] {
            proof {
                assert(s@.subrange(i as int, i + k@.len())[j as int] != kw@[j as int]);
            }
            return false;
        }
        j += 1;
    }
    assert(s@.subrange(i as int, i + k@.len()) =~= kw@);
    let end = i + k.len();
    end == s.len() || !ident_char_exec(s[end])
}

/// What an escape sequence `\x` stands for, if it is supported.
pub open spec fn unescape(x: char) -> Option<char> {
    if x == '\\' || x == '"' {
        Some(x)
    } else if x == 'n' {
        Some('\n')
    } else if x == 'r' {
        Some('\r')
    } else if x == 't' {
        Some('\t')
    } else {
        None
    }
}

pub fn unescape_exec(x: char) -> (r: Option<char>)
    ensures
        r == unescape(x),
{
    if x == '\\' || x == '"' {
        Some(x)
    } else if x == 'n' {
        Some('\n')
    } else if x == 'r' {
        Some('\r')
    } else if x == 't' {
        Some('\t')
    } else {
        None
    }
}

/// Scan the rest of a double-quoted string literal whose opening quote is
/// at `start`, from index `i`, having decoded `acc`: the decoded text and
/// the index after the closing quote; or the fault's index with `None` for
/// an unterminated literal and `Some(x)` for the unsupported escape `\x`,
/// reported at its backslash.
pub open spec fn scan_literal(s: Seq<char>, start: int, i: int, acc: Seq<char>) -> Result<
    (Seq<char>, int),
    (int, Option<char>),
>
    decreases s.len() - i,
{
    if i < 0 || i >= s.len() {
        Err((start, None))
    } else if s[i] == '"' {
        Ok((acc, i + 1))
    } else if s[i] == '\\' {
        if i + 1 >= s.len() {
            Err((start, None))
        } else {
            match unescape(s[i + 1]) {
                Some(c) => scan_literal(s, start, i + 2, acc.push(c)),
                None => Err((i, Some(s[i + 1]))),
            }
        }
    } else {
        scan_literal(s, start, i + 1, acc.push(s[i]))
    }
}

pub proof fn lemma_scan_literal_bounds(s: Seq<char>, start: int, i: int, acc: Seq<char>)
    requires
        0 <= start < i,
        start <= s.len(),
    ensures
        scan_literal(s, start, i, acc) matches Ok((_, a)) ==> i < a <= s.len(),
        scan_literal(s, start, i, acc) matches Err((p, _)) ==> 0 <= p <= s.len(),
    decreases s.len() - i,
{
    if 0 <= i < s.len() && s[i] != '"' {
        if s[i] == '\\' {
            if i + 1 < s.len() {
                match unescape(s[i + 1]) {
                    Some(c) => lemma_scan_literal_bounds(s, start, i + 2, acc.push(c)),
                    None => {},
                }
            }
        } else {
            lemma_scan_literal_bounds(s, start, i + 1, acc.push(s[i]));
        }
    }
}

/// Decode the string literal whose opening quote is at `start`.
pub fn scan_literal_exec(s: &Vec<char>, start: usize) -> (r: Result<(String, usize), (usize, Option<char>)>)
    requires
        start < s@.len(),
        s@[start as int] == '"',
    ensures
        match scan_literal(s@, start as int, start + 1, Seq::empty()) {
            Ok((v, after)) => r matches Ok((t, a)) && t@ == v && a == after,
            Err((p, f)) => r matches Err((q, g)) && q == p && g == f,
        },
{
    let n = s.len();
    let mut out = String::new();
    let mut i: usize = start + 1;
    while i < n && s[i] != '"'
        invariant
            n == s@.len(),
            start < i <= n,
            scan_literal(s@, start as int, i as int, out@) == scan_literal(s@, start as int, start + 1, Seq::empty()),
        decreases n - i,
    {
        if s[i] == '\\' {
            if i + 1 >= n {
                return Err((start, None));
            }
            match unescape_exec(s[i + 1]) {
                Some(c) => {
                    push_char(&mut out, c);
                    i = i + 2;
                },
                None => {
                    return Err((i, Some(s[i + 1])));
                },
            }
        } else {
            push_char(&mut out, s[i]);
            i = i + 1;
        }
    }
    if i >= n {
        return Err((start, None));
    }
    Ok((out, i + 1))
}

/// How a character is written inside double quotes.
pub open spec fn escape_quoted_char(c: char) -> Seq<char> {
    if c == '\\' {
        seq!['\\', '\\']
    } else if c == '"' {
        seq!['\\', '"']
    } else if c == '\n' {
        seq!['\\', 'n']
    } else if c == '\r' {
        seq!['\\', 'r']
    } else if c == '\t' {
        seq!['\\', 't']
    } else {
        seq![c]
    }
}

pub open spec fn escaped(v: Seq<char>) -> Seq<char>
    decreases v.len(),
{
    if v.len() == 0 {
        Seq::empty()
    } else {
        escape_quoted_char(v[0]) + escaped(v.drop_first())
    }
}

/// `v` written as a double-quoted string.
pub open spec fn quoted(v: Seq<char>) -> Seq<char> {
    seq!['"'] + escaped(v) + seq!['"']
}

pub proof fn lemma_escaped_push(v: Seq<char>, c: char)
    ensures
        escaped(v.push(c)) == escaped(v) + escape_quoted_char(c),
    decreases v.len(),
{
    if v.len() == 0 {
        let w = v.push(c);
        assert(w.drop_first() =~= Seq::<char>::empty());
        assert(escaped(w.drop_first()) =~= Seq::<char>::empty());
        assert(escaped(w) == escape_quoted_char(w[0]) + escaped(w.drop_first()));
        assert(escaped(w) =~= escape_quoted_char(c));
        assert(escaped(v) + escape_quoted_char(c) =~= escape_quoted_char(c));
    } else {
        assert(v.push(c).drop_first() =~= v.drop_first().push(c));
        lemma_escaped_push(v.drop_first(), c);
        assert(escaped(v.push(c)) =~= escaped(v) + escape_quoted_char(c));
    }
}

/// Scanning a literal over the escaped form of `v` decodes exactly `v`.
pub proof fn lemma_scan_literal_escaped(s: Seq<char>, start: int, i: int, acc: Seq<char>, v: Seq<char>)
    requires
        0 <= i,
        i + escaped(v).len() <= s.len(),
        s.subrange(i, i + escaped(v).len()) == escaped(v),
    ensures
        scan_literal(s, start, i, acc) == scan_literal(s, start, i + escaped(v).len(), acc + v),
    decreases v.len(),
{
    if v.len() == 0 {
        assert(acc + v =~= acc);
    } else {
        let c = v[0];
        let head = escape_quoted_char(c);
        let rest = v.drop_first();
        assert(escaped(v) == head + escaped(rest));
        assert(s.subrange(i, i + head.len()) =~= head) by {
            assert(s.subrange(i, i + head.len()) =~= s.subrange(i, i + escaped(v).len()).subrange(0, head.len() as int));
        }
        assert(s.subrange(i + head.len(), i + head.len() + escaped(rest).len()) =~= escaped(rest)) by {
            assert(s.subrange(i + head.len(), i + head.len() + escaped(rest).len()) =~= s.subrange(
                i,
                i + escaped(v).len(),
            ).subrange(head.len() as int, escaped(v).len() as int));
        }
        assert(s[i] == head[0]);
        if head.len() == 2 {
            assert(s[i + 1] == head[1]);
            assert(unescape(head[1]) == Some(c));
        }
        lemma_scan_literal_escaped(s, start, i + head.len(), acc.push(c), rest);
        assert(acc.push(c) + rest =~= acc + v);
    }
}

pub fn append_escaped_char(out: &mut String, c: char)
    ensures
        final(out)@ == old(out)@ + escape_quoted_char(c),
{
    if c == '\\' {
        append(out, "\\\\");
        proof {
            reveal_strlit("\\\\");
        }
    } else if c == '"' {
        append(out, "\\\"");
        proof {
            reveal_strlit("\\\"");
        }
    } else if c == '\n' {
        append(out, "\\n");
        proof {
            reveal_strlit("\\n");
        }
    } else if c == '\r' {
        append(out, "\\r");
        proof {
            reveal_strlit("\\r");
        }
    } else if c == '\t' {
        append(out, "\\t");
        proof {
            reveal_strlit("\\t");
        }
    } else {
        push_char(out, c);
    }
    proof {
        assert(final(out)@ =~= old(out)@ + escape_quoted_char(c));
    }
}

/// Append `v` as a double-quoted string.
pub fn append_quoted(out: &mut String, v: &str)
    ensures
        final(out)@ == old(out)@ + quoted(v@),
{
    let chars = crate::text::chars_of(v);
    let ghost start = out@;
    push_char(out, '"');
    let mut i: usize = 0;
    while i < chars.len()
        invariant
            chars@ == v@,
            i <= chars@.len(),
            out@ == start + seq!['"'] + escaped(chars@.take(i as int)),
        decreases chars.len() - i,
    {
        proof {
            assert(chars@.take(i + 1) =~= chars@.take(i as int).push(chars@[i as int]));
            lemma_escaped_push(chars@.take(i as int), chars@[i as int]);
        }
        append_escaped_char(out, chars[i]);
        i += 1;
    }
    push_char(out, '"');
    proof {
        assert(chars@.take(chars@.len() as int) =~= v@);
        assert(out@ =~= start + quoted(v@));
    }
}


// Lines, as `str::lines` splits a text.

/// The first index at or after `p` that holds a line feed, or the length.
pub open spec fn line_end(s: Seq<char>, p: int) -> int
    decreases s.len() - p,
{
    if p < 0 || p >= s.len() {
        s.len() as int
    } else if s[p] == '\n' {
        p
    } else {
        line_end(s, p + 1)
    }
}

/// The line starting at `p`, as `str::lines` gives it: without its line
/// feed, and without a carriage return just before that line feed.
pub open spec fn raw_line(s: Seq<char>, p: int) -> Seq<char> {
    let e = line_end(s, p);
    let l = s.subrange(p, e);
    if e < s.len() && l.len() > 0 && l.last() == '\r' {
        l.drop_last()
    } else {
        l
    }
}

/// The index where the line after the one starting at `p` starts.
pub open spec fn next_line(s: Seq<char>, p: int) -> int {
    let e = line_end(s, p);
    if e < s.len() {
        e + 1
    } else {
        s.len() as int
    }
}

pub proof fn lemma_line_end_bounds(s: Seq<char>, p: int)
    requires
        0 <= p <= s.len(),
    ensures
        p <= line_end(s, p) <= s.len(),
        line_end(s, p) < s.len() ==> s[line_end(s, p)] == '\n',
        forall|j: int| p <= j < line_end(s, p) ==> s[j] != '\n',
    decreases s.len() - p,
{
    if p < s.len() && s[p] != '\n' {
        lemma_line_end_bounds(s, p + 1);
    }
}

pub proof fn lemma_raw_line_bytes(s: Seq<char>, p: int)
    requires
        0 <= p <= s.len(),
    ensures
        byte_len(raw_line(s, p)) <= byte_len(s),
        raw_line(s, p).len() <= s.len() - p,
{
    lemma_line_end_bounds(s, p);
    let e = line_end(s, p);
    lemma_byte_len_subrange(s, p, e);
    let l = s.subrange(p, e);
    if e < s.len() && l.len() > 0 && l.last() == '\r' {
        lemma_byte_len_subrange(l, 0, l.len() - 1);
        assert(l.subrange(0, l.len() - 1) =~= l.drop_last());
    }
}

pub proof fn lemma_line_end_at(s: Seq<char>, p: int, e: int)
    requires
        0 <= p <= e <= s.len(),
        forall|j: int| p <= j < e ==> s[j] != '\n',
        e < s.len() ==> s[e] == '\n',
    ensures
        line_end(s, p) == e,
    decreases e - p,
{
    if p < e {
        lemma_line_end_at(s, p + 1, e);
    }
}

pub fn line_end_exec(chars: &Vec<char>, p: usize) -> (e: usize)
    requires
        p <= chars@.len(),
    ensures
        e == line_end(chars@, p as int),
{
    let mut e = p;
    while e < chars.len() && chars[e] != '\n'
        invariant
            p <= e <= chars@.len(),
            line_end(chars@, e as int) == line_end(chars@, p as int),
        decreases chars.len() - e,
    {
        e += 1;
    }
    e
}

/// The characters of the line starting at `p`, as `raw_line` describes it.
pub fn raw_line_exec(chars: &Vec<char>, p: usize) -> (r: (Vec<char>, usize))
    requires
        p < chars@.len(),
    ensures
        r.0@ == raw_line(chars@, p as int),
        r.1 == line_end(chars@, p as int),
{
    let e = line_end_exec(chars, p);
    proof {
        lemma_line_end_bounds(chars@, p as int);
    }
    let mut stop = e;
    if e < chars.len() && e > p && chars[e - 1] == '\r' {
        stop = e - 1;
    }
    let mut l: Vec<char> = Vec::new();
    let mut k = p;
    while k < stop
        invariant
            p <= k <= stop <= e <= chars@.len(),
            l@ == chars@.subrange(p as int, k as int),
        decreases stop - k,
    {
        l.push(chars[k]);
        k += 1;
        assert(l@ =~= chars@.subrange(p as int, k as int));
    }
    proof {
        let whole = chars@.subrange(p as int, e as int);
        if e < chars@.len() && whole.len() > 0 && whole.last() == '\r' {
            assert(l@ =~= whole.drop_last());
        } else {
            assert(l@ =~= whole);
        }
    }
    (l, e)
}

} // verus!
