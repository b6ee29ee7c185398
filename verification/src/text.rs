//! Character-level text model shared by the parsers of this crate.
//!
//! Text is handled as sequences of `char`. Scans are described by spec
//! functions that walk an index forward (or backward) over a character
//! class, which is exactly how the executable scanners move.
use vstd::prelude::*;

verus! {

/// The Unicode `White_Space` property, as used by `char::is_whitespace`.
pub open spec fn is_ws(c: char) -> bool {
    let u = c as u32;
    ||| 0x09 <= u <= 0x0D
    ||| u == 0x20
    ||| u == 0x85
    ||| u == 0xA0
    ||| u == 0x1680
    ||| 0x2000 <= u <= 0x200A
    ||| u == 0x2028
    ||| u == 0x2029
    ||| u == 0x202F
    ||| u == 0x205F
    ||| u == 0x3000
}

/// What `char::is_alphanumeric` answers (the Unicode `Alphabetic` or
/// `Numeric` properties).
pub uninterp spec fn is_alnum(c: char) -> bool;

/// Whether a character has the Unicode `White_Space` property, as
/// `char::is_whitespace` answers: the characters listed in `is_ws`.
pub(crate) fn char_is_whitespace(c: char) -> (r: bool)
    ensures
        r == is_ws(c),
{
    let u = c as u32;
    (0x09 <= u && u <= 0x0D) || u == 0x20 || u == 0x85 || u == 0xA0 || u == 0x1680 || (0x2000
        <= u && u <= 0x200A) || u == 0x2028 || u == 0x2029 || u == 0x202F || u == 0x205F || u
        == 0x3000
}

/// `char::is_alphanumeric`: its answer is named `is_alnum`; nothing more about
/// the Unicode tables behind it is stated.
#[verifier::external_body]
pub(crate) fn char_is_alphanumeric(c: char) -> (r: bool)
    ensures
        r == is_alnum(c),
{
    c.is_alphanumeric()
}

/// `String::push`: appends one character.
#[verifier::external_body]
pub(crate) fn string_push(s: &mut String, c: char)
    ensures
        final(s)@ == old(s)@.push(c),
{
    s.push(c);
}

/// Classes of characters that the scanners skip over.
#[derive(Clone, Copy, PartialEq, Eq, Debug)]
pub enum CharClass {
    Whitespace,
    NotWhitespace,
    /// Letters, digits and `_`.
    Ident,
    /// Letters, digits, `_` and `!`.
    Keyword,
    /// Letters, digits, `_` and `~`.
    CName,
    /// Every character but the given one.
    Not(char),
}

pub open spec fn in_class(c: char, k: CharClass) -> bool {
    match k {
        CharClass::Whitespace => is_ws(c),
        CharClass::NotWhitespace => !is_ws(c),
        CharClass::Ident => is_alnum(c) || c == '_',
        CharClass::Keyword => is_alnum(c) || c == '_' || c == '!',
        CharClass::CName => is_alnum(c) || c == '_' || c == '~',
        CharClass::Not(x) => c != x,
    }
}

pub fn class_has(c: char, k: CharClass) -> (r: bool)
    ensures
        r == in_class(c, k),
{
    match k {
        CharClass::Whitespace => char_is_whitespace(c),
        CharClass::NotWhitespace => !char_is_whitespace(c),
        CharClass::Ident => c == '_' || char_is_alphanumeric(c),
        CharClass::Keyword => c == '_' || c == '!' || char_is_alphanumeric(c),
        CharClass::CName => c == '_' || c == '~' || char_is_alphanumeric(c),
        CharClass::Not(x) => c != x,
    }
}

/// End of the run of class-`k` characters that starts at `i`.
pub open spec fn span_from(s: Seq<char>, k: CharClass, i: int) -> int
    decreases s.len() - i,
{
    if 0 <= i < s.len() && in_class(s[i], k) {
        span_from(s, k, i + 1)
    } else {
        i
    }
}

/// Start of the run of class-`k` characters that ends just before `i`.
pub open spec fn rspan_to(s: Seq<char>, k: CharClass, i: int) -> int
    decreases i,
{
    if 0 < i <= s.len() && in_class(s[i - 1], k) {
        rspan_to(s, k, i - 1)
    } else {
        i
    }
}

/// A run of class-`k` characters from `i` up to `j`, where one of another
/// class (or the end) follows, is spanned exactly.
pub proof fn lemma_span_run(s: Seq<char>, k: CharClass, i: int, j: int)
    requires
        0 <= i <= j <= s.len(),
        forall|m: int| i <= m < j ==> in_class(#[trigger] s[m], k),
        j == s.len() || !in_class(s[j], k),
    ensures
        span_from(s, k, i) == j,
    decreases j - i,
{
    if i < j {
        lemma_span_run(s, k, i + 1, j);
    }
}

pub proof fn lemma_span_bounds(s: Seq<char>, k: CharClass, i: int)
    requires
        0 <= i <= s.len(),
    ensures
        i <= span_from(s, k, i) <= s.len(),
        i < s.len() && in_class(s[i], k) ==> i < span_from(s, k, i),
        forall|j: int| i <= j < span_from(s, k, i) ==> in_class(#[trigger] s[j], k),
        span_from(s, k, i) < s.len() ==> !in_class(s[span_from(s, k, i)], k),
    decreases s.len() - i,
{
    if i < s.len() && in_class(s[i], k) {
        lemma_span_bounds(s, k, i + 1);
    }
}

pub proof fn lemma_rspan_bounds(s: Seq<char>, k: CharClass, i: int)
    requires
        0 <= i <= s.len(),
    ensures
        0 <= rspan_to(s, k, i) <= i,
        forall|j: int| rspan_to(s, k, i) <= j < i ==> in_class(#[trigger] s[j], k),
    decreases i,
{
    if i > 0 && in_class(s[i - 1], k) {
        lemma_rspan_bounds(s, k, i - 1);
    }
}

/// Index just past the run of class-`k` characters starting at `from`.
pub fn span(s: &[char], k: CharClass, from: usize) -> (r: usize)
    requires
        from <= s@.len(),
    ensures
        r == span_from(s@, k, from as int),
        from <= r <= s@.len(),
{
    let mut i = from;
    while i < s.len() && class_has(s[i], k)
        invariant
            from <= i <= s@.len(),
            span_from(s@, k, from as int) == span_from(s@, k, i as int),
        decreases s@.len() - i,
    {
        i = i + 1;
    }
    proof {
        lemma_span_bounds(s@, k, from as int);
    }
    i
}

/// Start of the run of class-`k` characters that ends just before `to`.
pub fn rspan(s: &[char], k: CharClass, to: usize) -> (r: usize)
    requires
        to <= s@.len(),
    ensures
        r == rspan_to(s@, k, to as int),
        r <= to,
{
    let mut i = to;
    while i > 0 && class_has(s[i - 1], k)
        invariant
            i <= to <= s@.len(),
            rspan_to(s@, k, to as int) == rspan_to(s@, k, i as int),
        decreases i,
    {
        i = i - 1;
    }
    i
}

/// Copy of `s[a..b]`.
pub fn slice_of(s: &[char], a: usize, b: usize) -> (r: Vec<char>)
    requires
        a <= b <= s@.len(),
    ensures
        r@ == s@.subrange(a as int, b as int),
{
    let mut r: Vec<char> = Vec::new();
    let mut i = a;
    while i < b
        invariant
            a <= i <= b <= s@.len(),
            r@ == s@.subrange(a as int, i as int),
        decreases b - i,
    {
        r.push(s[i]);
        i = i + 1;
        assert(r@ =~= s@.subrange(a as int, i as int));
    }
    r
}

/// The characters of a string slice.
pub fn chars_of(s: &str) -> (r: Vec<char>)
    ensures
        r@ == s@,
{
    let mut r: Vec<char> = Vec::new();
    for c in it: s.chars()
        invariant
            r@ == it.seq().take(it.index() as int),
    {
        r.push(c);
    }
    r
}

/// A `String` holding the given characters.
pub fn string_of(s: &[char]) -> (r: String)
    ensures
        r@ == s@,
{
    let mut r = String::new();
    let mut i: usize = 0;
    while i < s.len()
        invariant
            i <= s@.len(),
            r@ == s@.take(i as int),
        decreases s@.len() - i,
    {
        string_push(&mut r, s[i]);
        i = i + 1;
        assert(r@ =~= s@.take(i as int));
    }
    assert(s@.take(i as int) =~= s@);
    r
}

/// Appends the characters of `t` to `s`.
pub fn push_all(s: &mut String, t: &[char])
    ensures
        final(s)@ == old(s)@ + t@,
{
    let mut i: usize = 0;
    while i < t.len()
        invariant
            i <= t@.len(),
            s@ == old(s)@ + t@.take(i as int),
        decreases t@.len() - i,
    {
        string_push(s, t[i]);
        i = i + 1;
        assert(s@ =~= old(s)@ + t@.take(i as int));
    }
    assert(t@.take(i as int) =~= t@);
}

pub open spec fn starts_with(s: Seq<char>, p: Seq<char>) -> bool {
    p.len() <= s.len() && s.take(p.len() as int) == p
}

/// Whether `s` begins with the characters of `p`.
pub fn starts_with_chars(s: &[char], p: &[char]) -> (r: bool)
    ensures
        r == starts_with(s@, p@),
{
    if p.len() > s.len() {
        return false;
    }
    let mut i: usize = 0;
    while i < p.len()
        invariant
            p@.len() <= s@.len(),
            i <= p@.len(),
            forall|j: int| 0 <= j < i ==> s@[j] == p@[j],
        decreases p@.len() - i,
    {
        if s[i] != p[i] {
            assert(s@.take(p@.len() as int)[i as int] != p@[i as int]);
            return false;
        }
        i = i + 1;
    }
    assert(s@.take(p@.len() as int) =~= p@);
    true
}

/// Whether `s` begins with the characters of the literal `lit`.
pub fn starts_with_str(s: &[char], lit: &str) -> (r: bool)
    ensures
        r == starts_with(s@, lit@),
{
    let p = chars_of(lit);
    starts_with_chars(s, p.as_slice())
}

/// Whether `s` holds exactly the characters of `lit`.
pub fn eq_str(s: &[char], lit: &str) -> (r: bool)
    ensures
        r == (s@ == lit@),
{
    let p = chars_of(lit);
    if p.len() != s.len() {
        return false;
    }
    let r = starts_with_chars(s, p.as_slice());
    assert(s@.take(p@.len() as int) =~= s@);
    r
}

/// `str::trim_start`: drops the leading whitespace.
pub open spec fn trim_start(s: Seq<char>) -> Seq<char> {
    s.skip(span_from(s, CharClass::Whitespace, 0))
}

/// `str::trim_end`: drops the trailing whitespace.
pub open spec fn trim_end(s: Seq<char>) -> Seq<char> {
    s.take(rspan_to(s, CharClass::Whitespace, s.len() as int))
}

/// True when `s` holds nothing but whitespace (so `s.trim()` is empty).
pub open spec fn all_ws(s: Seq<char>) -> bool {
    span_from(s, CharClass::Whitespace, 0) == s.len()
}

pub fn trim_start_of(s: &[char]) -> (r: Vec<char>)
    ensures
        r@ == trim_start(s@),
{
    let i = span(s, CharClass::Whitespace, 0);
    let r = slice_of(s, i, s.len());
    assert(r@ =~= trim_start(s@));
    r
}

pub fn trim_end_of(s: &[char]) -> (r: Vec<char>)
    ensures
        r@ == trim_end(s@),
{
    let i = rspan(s, CharClass::Whitespace, s.len());
    proof {
        lemma_rspan_bounds(s@, CharClass::Whitespace, s@.len() as int);
    }
    let r = slice_of(s, 0, i);
    assert(r@ =~= trim_end(s@));
    r
}

/// First index of `c` in `s`, as `str::find` with a character pattern.
pub open spec fn find_char(s: Seq<char>, c: char) -> Option<int> {
    let n = span_from(s, CharClass::Not(c), 0);
    if n < s.len() {
        Some(n)
    } else {
        None
    }
}

pub proof fn lemma_find_char(s: Seq<char>, c: char)
    ensures
        find_char(s, c) matches Some(i) ==> 0 <= i < s.len() && s[i] == c && forall|j: int|
            0 <= j < i ==> s[j] != c,
        find_char(s, c) is None ==> forall|j: int| 0 <= j < s.len() ==> s[j] != c,
{
    lemma_span_bounds(s, CharClass::Not(c), 0);
    assert forall|j: int| 0 <= j < span_from(s, CharClass::Not(c), 0) implies s[j] != c by {
        assert(in_class(s[j], CharClass::Not(c)));
    }
}

pub fn find_char_in(s: &[char], c: char) -> (r: Option<usize>)
    ensures
        r matches Some(i) ==> find_char(s@, c) == Some(i as int),
        r is None ==> find_char(s@, c) is None,
        r matches Some(i) ==> i < s@.len(),
{
    let n = span(s, CharClass::Not(c), 0);
    if n < s.len() {
        Some(n)
    } else {
        None
    }
}

/// Whether `pat` occurs in `s` starting at index `i`.
pub open spec fn occurs_at(s: Seq<char>, pat: Seq<char>, i: int) -> bool {
    0 <= i && i + pat.len() <= s.len() && s.subrange(i, i + pat.len()) == pat
}

/// First occurrence of `pat` at or after `i`, as `str::find` with a string pattern.
pub open spec fn find_seq_from(s: Seq<char>, pat: Seq<char>, i: int) -> Option<int>
    decreases s.len() - i,
{
    if i < 0 || i + pat.len() > s.len() {
        None
    } else if occurs_at(s, pat, i) {
        Some(i)
    } else if i >= s.len() {
        None
    } else {
        find_seq_from(s, pat, i + 1)
    }
}

pub proof fn lemma_find_seq_from(s: Seq<char>, pat: Seq<char>, i: int)
    ensures
        find_seq_from(s, pat, i) matches Some(p) ==> i <= p && occurs_at(s, pat, p),
    decreases s.len() - i,
{
    if i < 0 || i + pat.len() > s.len() {
    } else if occurs_at(s, pat, i) {
    } else if i >= s.len() {
    } else {
        lemma_find_seq_from(s, pat, i + 1);
    }
}

/// `str::trim`: drops leading and trailing whitespace.
pub open spec fn trim(s: Seq<char>) -> Seq<char> {
    trim_end(trim_start(s))
}

pub fn trim_of(s: &[char]) -> (r: Vec<char>)
    ensures
        r@ == trim(s@),
{
    let t = trim_start_of(s);
    trim_end_of(t.as_slice())
}

pub fn occurs_at_in(s: &[char], pat: &[char], i: usize) -> (r: bool)
    ensures
        r == occurs_at(s@, pat@, i as int),
{
    if pat.len() > s.len() || i > s.len() - pat.len() {
        return false;
    }
    let sl = s.len();
    let mut j: usize = 0;
    while j < pat.len()
        invariant
            sl == s@.len(),
            i + pat@.len() <= s@.len(),
            j <= pat@.len(),
            forall|m: int| 0 <= m < j ==> s@[i + m] == pat@[m],
        decreases pat@.len() - j,
    {
        assert(i + j < s@.len());
        if s[i + j] != pat[j] {
            assert(s@.subrange(i as int, i + pat@.len())[j as int] != pat@[j as int]);
            return false;
        }
        j = j + 1;
    }
    assert(s@.subrange(i as int, i + pat@.len()) =~= pat@);
    true
}

pub fn find_str_in(s: &[char], lit: &str) -> (r: Option<usize>)
    ensures
        r matches Some(i) ==> find_seq_from(s@, lit@, 0) == Some(i as int),
        r is None ==> find_seq_from(s@, lit@, 0) is None,
        r matches Some(i) ==> i <= s@.len(),
{
    let pat = chars_of(lit);
    let mut i: usize = 0;
    while i <= s.len()
        invariant
            pat@ == lit@,
            find_seq_from(s@, pat@, 0) == find_seq_from(s@, pat@, i as int),
        decreases s@.len() + 1 - i,
    {
        if pat.len() > s.len() - i {
            return None;
        }
        proof {
            if pat@.len() == 0 {
                assert(s@.subrange(i as int, i as int) =~= pat@);
            }
        }
        if occurs_at_in(s, pat.as_slice(), i) {
            return Some(i);
        }
        i = i + 1;
    }
    None
}

/// `str::split_whitespace`: the maximal runs of non-whitespace characters
/// at or after `i`.
pub open spec fn words_from(s: Seq<char>, i: int) -> Seq<Seq<char>>
    decreases s.len() - i,
{
    if i < 0 || i > s.len() {
        seq![]
    } else {
        let a = span_from(s, CharClass::Whitespace, i);
        if a >= s.len() {
            seq![]
        } else {
            let b = span_from(s, CharClass::NotWhitespace, a);
            proof {
                lemma_span_bounds(s, CharClass::Whitespace, i);
                lemma_span_bounds(s, CharClass::NotWhitespace, a);
            }
            seq![s.subrange(a, b)] + words_from(s, b)
        }
    }
}

/// The words joined by single spaces, as `words.join(" ")`.
pub open spec fn join_spaced(ws: Seq<Seq<char>>) -> Seq<char>
    decreases ws.len(),
{
    if ws.len() == 0 {
        seq![]
    } else if ws.len() == 1 {
        ws[0]
    } else {
        join_spaced(ws.drop_last()) + seq![' '] + ws.last()
    }
}

/// `s.split_whitespace().collect::<Vec<_>>().join(" ")`.
pub fn collapse_whitespace(s: &[char]) -> (r: Vec<char>)
    ensures
        r@ == join_spaced(words_from(s@, 0)),
{
    let mut out: Vec<char> = Vec::new();
    let ghost mut done: Seq<Seq<char>> = seq![];
    let mut any = false;
    let mut i: usize = 0;
    while i < s.len()
        invariant
            i <= s@.len(),
            words_from(s@, 0) == done + words_from(s@, i as int),
            out@ == join_spaced(done),
            any == (done.len() > 0),
        decreases s@.len() - i,
    {
        let a = span(s, CharClass::Whitespace, i);
        if a >= s.len() {
            assert(words_from(s@, i as int) =~= seq![]);
            assert(words_from(s@, a as int) =~= seq![]);
            i = a;
            continue;
        }
        let b = span(s, CharClass::NotWhitespace, a);
        proof {
            lemma_span_bounds(s@, CharClass::NotWhitespace, a as int);
        }
        let w = slice_of(s, a, b);
        if any {
            out.push(' ');
        }
        any = true;
        let mut j: usize = 0;
        let ghost base = out@;
        while j < w.len()
            invariant
                j <= w@.len(),
                out@ == base + w@.take(j as int),
            decreases w@.len() - j,
        {
            out.push(w[j]);
            j = j + 1;
            assert(out@ =~= base + w@.take(j as int));
        }
        assert(w@.take(j as int) =~= w@);
        proof {
            let nd = done.push(w@);
            assert(nd.drop_last() =~= done);
            if done.len() == 0 {
                assert(join_spaced(nd) == w@);
                assert(out@ =~= w@);
            } else {
                assert(out@ =~= join_spaced(done) + seq![' '] + w@);
            }
            assert(words_from(s@, i as int) == seq![w@] + words_from(s@, b as int));
            assert(done + words_from(s@, i as int) =~= nd + words_from(s@, b as int));
            done = nd;
        }
        i = b;
    }
    proof {
        assert(i == s@.len());
        assert(words_from(s@, i as int) =~= seq![]);
        assert(done + seq![] =~= done);
    }
    out
}

/// Strips one trailing carriage return, as `str::lines` does before a `\n`.
pub open spec fn strip_cr(l: Seq<char>) -> Seq<char> {
    if l.len() > 0 && l.last() == '\r' {
        l.drop_last()
    } else {
        l
    }
}

/// `str::lines` from index `i`: pieces split at `\n`, a `\r` just before a
/// `\n` dropped, and no empty piece after a final `\n`.
pub open spec fn lines_from(s: Seq<char>, i: int) -> Seq<Seq<char>>
    decreases s.len() - i,
{
    if i < 0 || i >= s.len() {
        seq![]
    } else {
        let k = span_from(s, CharClass::Not('\n'), i);
        proof {
            lemma_span_bounds(s, CharClass::Not('\n'), i);
        }
        if k >= s.len() {
            seq![s.subrange(i, s.len() as int)]
        } else {
            seq![strip_cr(s.subrange(i, k))] + lines_from(s, k + 1)
        }
    }
}

pub open spec fn lines(s: Seq<char>) -> Seq<Seq<char>> {
    lines_from(s, 0)
}

pub proof fn lemma_lines_len(s: Seq<char>, i: int)
    requires
        0 <= i <= s.len(),
    ensures
        lines_from(s, i).len() <= s.len() - i,
    decreases s.len() - i,
{
    if i < s.len() {
        let k = span_from(s, CharClass::Not('\n'), i);
        lemma_span_bounds(s, CharClass::Not('\n'), i);
        if k < s.len() {
            lemma_lines_len(s, k + 1);
        }
    }
}

/// The lines of `s`, as `str::lines`.
pub fn split_lines(s: &[char]) -> (r: Vec<Vec<char>>)
    ensures
        r@.len() == lines(s@).len(),
        forall|j: int| 0 <= j < r@.len() ==> (#[trigger] r@[j])@ == lines(s@)[j],
        r@.len() <= s@.len(),
{
    let mut r: Vec<Vec<char>> = Vec::new();
    let ghost mut done: Seq<Seq<char>> = seq![];
    let mut i: usize = 0;
    while i < s.len()
        invariant
            i <= s@.len(),
            lines(s@) == done + lines_from(s@, i as int),
            r@.len() == done.len(),
            forall|j: int| 0 <= j < r@.len() ==> (#[trigger] r@[j])@ == done[j],
        decreases s@.len() - i,
    {
        let k = span(s, CharClass::Not('\n'), i);
        if k >= s.len() {
            let piece = slice_of(s, i, s.len());
            proof {
                assert(lines_from(s@, i as int) == seq![piece@]);
                assert(lines_from(s@, s@.len() as int) =~= seq![]);
                assert(done + lines_from(s@, i as int) =~= done.push(piece@) + lines_from(
                    s@,
                    s@.len() as int,
                ));
                done = done.push(piece@);
            }
            r.push(piece);
            i = s.len();
        } else {
            let mut piece = slice_of(s, i, k);
            if piece.len() > 0 && piece[piece.len() - 1] == '\r' {
                piece.pop();
                assert(piece@ =~= strip_cr(s@.subrange(i as int, k as int)));
            }
            proof {
                assert(lines_from(s@, i as int) == seq![piece@] + lines_from(s@, k + 1));
                assert(done + lines_from(s@, i as int) =~= done.push(piece@) + lines_from(
                    s@,
                    k + 1,
                ));
                done = done.push(piece@);
            }
            r.push(piece);
            i = k + 1;
        }
    }
    proof {
        assert(lines_from(s@, i as int) =~= seq![]);
        assert(lines(s@) =~= done);
        lemma_lines_len(s@, 0);
    }
    r
}


/// What `str::to_lowercase` makes of a string (Unicode lowercase mapping).
pub uninterp spec fn lowercased(s: Seq<char>) -> Seq<char>;

/// `str::to_lowercase`; the answer is named `lowercased`.
#[verifier::external_body]
pub(crate) fn to_lowercase(s: &str) -> (r: String)
    ensures
        r@ == lowercased(s@),
{
    s.to_lowercase()
}

} // verus!
