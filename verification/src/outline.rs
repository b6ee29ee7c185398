//! Extract a code outline (definitions such as functions, types, and classes)
//! from source files, used to populate the table of contents for source code.
//!
//! Every line of the source is looked at on its own: the definition it
//! opens, if any, is given by a spec function per language below, and the
//! outline is the list of those definitions in line order.
use vstd::prelude::*;

use crate::pathname::{path_extension, path_extension_of};
use crate::text::{
    all_ws, char_is_whitespace, chars_of, eq_str, find_char, find_char_in, find_seq_from,
    find_str_in, in_class, is_alnum, is_ws, join_spaced, lemma_span_run, lemma_find_char, lemma_span_bounds, lines, rspan,
    rspan_to, slice_of, span, span_from, split_lines, starts_with, starts_with_chars,
    starts_with_str, string_of, trim_end, trim_end_of, trim_start, trim_start_of, words_from,
    collapse_whitespace, CharClass,
};

verus! {

/// A single definition found in a source file.
#[derive(Debug, Clone, PartialEq, Eq)]
pub struct OutlineEntry {
    /// Nesting level (1-based), derived from indentation.
    pub level: u8,
    /// Display name of the definition.
    pub name: String,
    /// 1-based line number where the definition starts.
    pub line: usize,
}

/// The mathematical content of an outline entry.
pub struct EntryView {
    pub level: u8,
    pub name: Seq<char>,
    pub line: int,
}

impl View for OutlineEntry {
    type V = EntryView;

    open spec fn view(&self) -> EntryView {
        EntryView { level: self.level, name: self.name@, line: self.line as int }
    }
}

pub open spec fn entries_view(v: Seq<OutlineEntry>) -> Seq<EntryView> {
    v.map_values(|e: OutlineEntry| e@)
}

/// Programming languages for which we can extract a code outline.
#[derive(Debug, Clone, Copy, PartialEq, Eq, Structural)]
pub enum CodeLanguage {
    Rust,
    C,
    Cpp,
    Go,
    Python,
}

/// The language that a file extension stands for.
pub open spec fn language_for_extension(ext: Option<Seq<char>>) -> Option<CodeLanguage> {
    match ext {
        Some(e) => if e == "rs"@ {
            Some(CodeLanguage::Rust)
        } else if e == "c"@ || e == "h"@ {
            Some(CodeLanguage::C)
        } else if e == "cc"@ || e == "cpp"@ || e == "cxx"@ || e == "c++"@ || e == "hpp"@ || e
            == "hh"@ || e == "hxx"@ || e == "h++"@ {
            Some(CodeLanguage::Cpp)
        } else if e == "go"@ {
            Some(CodeLanguage::Go)
        } else if e == "py"@ || e == "pyi"@ {
            Some(CodeLanguage::Python)
        } else {
            None
        },
        None => None,
    }
}

impl CodeLanguage {
    /// The language for a file extension (`None` for a path without one).
    pub fn from_extension(ext: Option<&str>) -> (r: Option<CodeLanguage>)
        ensures
            r == language_for_extension(
                match ext {
                    Some(e) => Some(e@),
                    None => None,
                },
            ),
    {
        match ext {
            None => None,
            Some(e) => {
                let c = chars_of(e);
                let s = c.as_slice();
                if eq_str(s, "rs") {
                    Some(CodeLanguage::Rust)
                } else if eq_str(s, "c") || eq_str(s, "h") {
                    Some(CodeLanguage::C)
                } else if eq_str(s, "cc") || eq_str(s, "cpp") || eq_str(s, "cxx") || eq_str(
                    s,
                    "c++",
                ) || eq_str(s, "hpp") || eq_str(s, "hh") || eq_str(s, "hxx") || eq_str(
                    s,
                    "h++",
                ) {
                    Some(CodeLanguage::Cpp)
                } else if eq_str(s, "go") {
                    Some(CodeLanguage::Go)
                } else if eq_str(s, "py") || eq_str(s, "pyi") {
                    Some(CodeLanguage::Python)
                } else {
                    None
                }
            },
        }
    }

    /// Detect the language from a file path's extension.
    pub fn from_path(path: &str) -> (r: Option<CodeLanguage>)
        ensures
            r == language_for_extension(path_extension(path@)),
    {
        let ext = path_extension_of(path);
        match ext {
            Some(e) => CodeLanguage::from_extension(Some(e.as_str())),
            None => CodeLanguage::from_extension(None),
        }
    }
}

// ---------------------------------------------------------------------------
// Line-level building blocks
// ---------------------------------------------------------------------------
/// Columns of leading indentation from index `i`: a space counts 1, a tab 4.
pub open spec fn indent_cols(s: Seq<char>, i: int) -> int
    decreases s.len() - i,
{
    if 0 <= i < s.len() && s[i] == ' ' {
        1 + indent_cols(s, i + 1)
    } else if 0 <= i < s.len() && s[i] == '\t' {
        4 + indent_cols(s, i + 1)
    } else {
        0
    }
}

/// Indentation level: 1 + one level per 4 columns of leading whitespace
/// (a tab counts as 4 columns). Capped at 6.
pub open spec fn indent_level(s: Seq<char>) -> u8 {
    let c = indent_cols(s, 0);
    if c >= 20 {
        6
    } else {
        (1 + c / 4) as u8
    }
}

proof fn lemma_indent_cols_nonneg(s: Seq<char>, i: int)
    ensures
        indent_cols(s, i) >= 0,
    decreases s.len() - i,
{
    if 0 <= i < s.len() && (s[i] == ' ' || s[i] == '\t') {
        lemma_indent_cols_nonneg(s, i + 1);
    }
}

pub fn indent_level_of(line: &[char]) -> (r: u8)
    ensures
        r == indent_level(line@),
        1 <= r <= 6,
{
    let mut cols: usize = 0;
    let mut i: usize = 0;
    while i < line.len() && cols < 20 && (line[i] == ' ' || line[i] == '\t')
        invariant
            i <= line@.len(),
            cols < 24,
            indent_cols(line@, 0) == cols + indent_cols(line@, i as int),
        decreases line@.len() - i,
    {
        if line[i] == ' ' {
            cols = cols + 1;
        } else {
            cols = cols + 4;
        }
        i = i + 1;
    }
    proof {
        lemma_indent_cols_nonneg(line@, i as int);
    }
    if cols >= 20 {
        6
    } else {
        (1 + cols / 4) as u8
    }
}

/// An identifier (letters, digits, underscore) at the start of `s`.
pub open spec fn ident(s: Seq<char>) -> Seq<char> {
    s.take(span_from(s, CharClass::Ident, 0))
}

pub fn ident_of(s: &[char]) -> (r: Vec<char>)
    ensures
        r@ == ident(s@),
{
    let n = span(s, CharClass::Ident, 0);
    let r = slice_of(s, 0, n);
    assert(r@ =~= ident(s@));
    r
}

/// `s` split into its first token (letters, digits, `_`, `!`) after leading
/// whitespace, and the remainder with leading whitespace trimmed.
pub open spec fn split_keyword(s: Seq<char>) -> (Seq<char>, Seq<char>) {
    let t = trim_start(s);
    let n = span_from(t, CharClass::Keyword, 0);
    (t.take(n), trim_start(t.skip(n)))
}

pub fn split_keyword_of(s: &[char]) -> (r: (Vec<char>, Vec<char>))
    ensures
        (r.0@, r.1@) == split_keyword(s@),
{
    let t = trim_start_of(s);
    let n = span(t.as_slice(), CharClass::Keyword, 0);
    let kw = slice_of(t.as_slice(), 0, n);
    let rest = slice_of(t.as_slice(), n, t.len());
    let rest2 = trim_start_of(rest.as_slice());
    assert(kw@ =~= t@.take(n as int));
    assert(rest@ =~= t@.skip(n as int));
    (kw, rest2)
}

/// If `s` starts with the whole word `w` followed by whitespace, the rest
/// after the word with leading whitespace trimmed; otherwise `s`.
pub open spec fn strip_word(s: Seq<char>, w: Seq<char>) -> Seq<char> {
    if starts_with(s, w) && w.len() < s.len() && is_ws(s[w.len() as int]) {
        trim_start(s.skip(w.len() as int))
    } else {
        s
    }
}

pub fn strip_word_of(s: &[char], w: &str) -> (r: Vec<char>)
    ensures
        r@ == strip_word(s@, w@),
{
    let wc = chars_of(w);
    if starts_with_chars(s, wc.as_slice()) && wc.len() < s.len() && char_is_whitespace(
        s[wc.len()],
    ) {
        let rest = slice_of(s, wc.len(), s.len());
        assert(rest@ =~= s@.skip(wc@.len() as int));
        trim_start_of(rest.as_slice())
    } else {
        let r = slice_of(s, 0, s.len());
        assert(r@ =~= s@);
        r
    }
}

pub proof fn lemma_strip_word_len(s: Seq<char>, w: Seq<char>)
    ensures
        strip_word(s, w).len() <= s.len(),
{
    if starts_with(s, w) && w.len() < s.len() && is_ws(s[w.len() as int]) {
        let t = s.skip(w.len() as int);
        lemma_span_bounds(t, CharClass::Whitespace, 0);
    }
}

/// One pass stripping each of the words in order.
pub open spec fn strip_each(s: Seq<char>, ws: Seq<Seq<char>>) -> Seq<char>
    decreases ws.len(),
{
    if ws.len() == 0 {
        s
    } else {
        strip_each(strip_word(s, ws[0]), ws.drop_first())
    }
}

/// Passes of `strip_each` repeated until one strips nothing.
pub open spec fn strip_words(s: Seq<char>, ws: Seq<Seq<char>>) -> Seq<char>
    decreases s.len(),
{
    let t = strip_each(s, ws);
    if t.len() >= s.len() {
        t
    } else {
        strip_words(t, ws)
    }
}

/// Modifiers skipped before a Rust item keyword.
pub open spec fn rust_modifiers() -> Seq<Seq<char>> {
    seq!["default"@, "async"@, "unsafe"@, "extern"@]
}

pub fn strip_rust_modifiers(s: &[char]) -> (r: Vec<char>)
    ensures
        r@ == strip_words(s@, rust_modifiers()),
    decreases s@.len(),
{
    let ghost ws = rust_modifiers();
    let t1 = strip_word_of(s, "default");
    let t2 = strip_word_of(t1.as_slice(), "async");
    let t3 = strip_word_of(t2.as_slice(), "unsafe");
    let t4 = strip_word_of(t3.as_slice(), "extern");
    proof {
        let w1 = ws.drop_first();
        let w2 = w1.drop_first();
        let w3 = w2.drop_first();
        let w4 = w3.drop_first();
        assert(w1 =~= seq!["async"@, "unsafe"@, "extern"@]);
        assert(w2 =~= seq!["unsafe"@, "extern"@]);
        assert(w3 =~= seq!["extern"@]);
        assert(w4 =~= Seq::<Seq<char>>::empty());
        assert(strip_each(t4@, w4) == t4@);
        assert(strip_each(t3@, w3) == t4@);
        assert(strip_each(t2@, w2) == t4@);
        assert(strip_each(t1@, w1) == t4@);
        assert(strip_each(s@, ws) == t4@);
        lemma_strip_word_len(s@, "default"@);
        lemma_strip_word_len(t1@, "async"@);
        lemma_strip_word_len(t2@, "unsafe"@);
        lemma_strip_word_len(t3@, "extern"@);
    }
    if t4.len() >= s.len() {
        t4
    } else {
        strip_rust_modifiers(t4.as_slice())
    }
}

/// Smaller of `end` and the found index, if any.
pub open spec fn min_found(end: int, found: Option<int>) -> int {
    match found {
        Some(i) => if i < end {
            i
        } else {
            end
        },
        None => end,
    }
}

/// Whether the word `where` starts at `i`, after whitespace and followed
/// by whitespace or the end of the text.
pub open spec fn where_at(s: Seq<char>, i: int) -> bool {
    &&& 1 <= i
    &&& i + 5 <= s.len()
    &&& is_ws(s[i - 1])
    &&& s.subrange(i, i + 5) == "where"@
    &&& (i + 5 == s.len() || is_ws(s[i + 5]))
}

/// The whitespace before the first `where` clause at or after `i`.
pub open spec fn where_cut_from(s: Seq<char>, i: int) -> Option<int>
    decreases s.len() - i,
{
    if i < 1 || i >= s.len() {
        None
    } else if where_at(s, i) {
        Some(i - 1)
    } else {
        where_cut_from(s, i + 1)
    }
}

/// Where a display name is cut: at the first `{`, `(`, `;`, or `where`
/// clause (the word `where` after whitespace).
pub open spec fn display_cut(s: Seq<char>) -> int {
    min_found(
        min_found(
            min_found(min_found(s.len() as int, find_char(s, '{')), find_char(s, '(')),
            find_char(s, ';'),
        ),
        where_cut_from(s, 1),
    )
}

/// A display name trimmed at the first `{`, `(`, `;`, or `where` clause,
/// with whitespace runs collapsed to single spaces.
pub open spec fn clean_display(s: Seq<char>) -> Seq<char> {
    join_spaced(words_from(s.take(display_cut(s)), 0))
}

fn where_at_of(s: &[char], i: usize) -> (r: bool)
    ensures
        r == where_at(s@, i as int),
{
    if i < 1 || s.len() < 5 || i > s.len() - 5 {
        return false;
    }
    if !char_is_whitespace(s[i - 1]) {
        return false;
    }
    let w = chars_of("where");
    proof {
        reveal_strlit("where");
    }
    assert(w@.len() == 5);
    let mut j: usize = 0;
    while j < 5
        invariant
            w@ == "where"@,
            w@.len() == 5,
            1 <= i,
            i + 5 <= s@.len(),
            s@.len() == s.len(),
            j <= 5,
            forall|m: int| 0 <= m < j ==> s@[i + m] == w@[m],
        decreases 5 - j,
    {
        if s[i + j] != w[j] {
            assert(s@.subrange(i as int, i + 5)[j as int] != "where"@[j as int]);
            return false;
        }
        j = j + 1;
    }
    assert(s@.subrange(i as int, i + 5) =~= "where"@);
    i + 5 == s.len() || char_is_whitespace(s[i + 5])
}

fn where_cut_of(s: &[char]) -> (r: Option<usize>)
    ensures
        match r {
            Some(c) => where_cut_from(s@, 1) == Some(c as int),
            None => where_cut_from(s@, 1) is None,
        },
{
    let mut i: usize = 1;
    while i < s.len()
        invariant
            1 <= i,
            where_cut_from(s@, 1) == where_cut_from(s@, i as int),
        decreases s@.len() - i,
    {
        if where_at_of(s, i) {
            return Some(i - 1);
        }
        i = i + 1;
    }
    None
}

fn min_found_of(end: usize, found: Option<usize>) -> (r: usize)
    ensures
        r == min_found(
            end as int,
            match found {
                Some(i) => Some(i as int),
                None => None,
            },
        ),
{
    match found {
        Some(i) => if i < end {
            i
        } else {
            end
        },
        None => end,
    }
}

pub fn clean_display_of(s: &[char]) -> (r: Vec<char>)
    ensures
        r@ == clean_display(s@),
{
    let e0 = s.len();
    let e1 = min_found_of(e0, find_char_in(s, '{'));
    let e2 = min_found_of(e1, find_char_in(s, '('));
    let e3 = min_found_of(e2, find_char_in(s, ';'));
    let e4 = min_found_of(e3, where_cut_of(s));
    let cut = slice_of(s, 0, e4);
    assert(cut@ =~= s@.take(display_cut(s@)));
    collapse_whitespace(cut.as_slice())
}

pub open spec fn nonempty(n: Seq<char>) -> Option<Seq<char>> {
    if n.len() == 0 {
        None
    } else {
        Some(n)
    }
}

pub open spec fn opt_view(o: Option<Vec<char>>) -> Option<Seq<char>> {
    match o {
        Some(v) => Some(v@),
        None => None,
    }
}

fn nonempty_of(n: Vec<char>) -> (r: Option<Vec<char>>)
    ensures
        opt_view(r) == nonempty(n@),
{
    if n.len() == 0 {
        None
    } else {
        Some(n)
    }
}

/// `s` after a leading parenthesised group (when `s` opens one that closes),
/// with leading whitespace trimmed; otherwise `s`.
pub open spec fn skip_parens(s: Seq<char>) -> Seq<char> {
    if s.len() > 0 && s[0] == '(' {
        match find_char(s, ')') {
            Some(i) => trim_start(s.skip(i + 1)),
            None => s,
        }
    } else {
        s
    }
}

fn skip_parens_of(s: &[char]) -> (r: Vec<char>)
    ensures
        r@ == skip_parens(s@),
{
    if s.len() > 0 && s[0] == '(' {
        match find_char_in(s, ')') {
            Some(i) => {
                let rest = slice_of(s, i + 1, s.len());
                assert(rest@ =~= s@.skip(i + 1));
                trim_start_of(rest.as_slice())
            },
            None => slice_of(s, 0, s.len()),
        }
    } else {
        let r = slice_of(s, 0, s.len());
        assert(r@ =~= s@);
        r
    }
}

// ---------------------------------------------------------------------------
// Rust
// ---------------------------------------------------------------------------
/// A Rust line with its visibility (`pub`, `pub(crate)`, `pub (in x)`, ...)
/// stripped.
pub open spec fn strip_visibility(s: Seq<char>) -> Seq<char> {
    if starts_with(s, "pub("@) {
        skip_parens(s.skip(3))
    } else {
        skip_parens(strip_word(s, "pub"@))
    }
}

/// A Rust item line after visibility (`pub`, `pub(...)`), modifiers and an
/// ABI string have been stripped.
pub open spec fn rust_item_body(s: Seq<char>) -> Seq<char> {
    let b2 = strip_visibility(s);
    let b3 = strip_words(b2, rust_modifiers());
    if b3.len() > 0 && b3[0] == '"' {
        match find_char(b3.skip(1), '"') {
            Some(i) => trim_start(b3.skip(i + 2)),
            None => b3,
        }
    } else {
        b3
    }
}

/// The name a Rust item keyword and the text after it define.
pub open spec fn rust_item_name(kw: Seq<char>, rest: Seq<char>) -> Option<Seq<char>> {
    if kw == "fn"@ {
        nonempty(ident(rest))
    } else if kw == "struct"@ || kw == "enum"@ || kw == "trait"@ || kw == "union"@ || kw
        == "mod"@ || kw == "type"@ {
        nonempty(ident(rest))
    } else if kw == "const"@ && split_keyword(rest).0 == "fn"@ {
        nonempty(ident(split_keyword(rest).1))
    } else if kw == "const"@ || kw == "static"@ {
        nonempty(ident(strip_word(rest, "mut"@)))
    } else if kw == "impl"@ {
        let d = clean_display(rest);
        if d.len() == 0 {
            None
        } else {
            Some("impl "@ + d)
        }
    } else {
        None
    }
}

/// The definition a line of Rust opens, if any.
pub open spec fn rust_line_name(raw: Seq<char>) -> Option<Seq<char>> {
    let s = trim_start(raw);
    if starts_with(s, "//"@) || starts_with(s, "/*"@) || starts_with(s, "*"@) {
        None
    } else if starts_with(s, "macro_rules!"@) {
        let n = ident(trim_start(s.skip("macro_rules!"@.len() as int)));
        if n.len() == 0 {
            None
        } else {
            Some(n + seq!['!'])
        }
    } else {
        let (kw, rest) = split_keyword(rust_item_body(s));
        rust_item_name(kw, rest)
    }
}

fn rust_item_body_of(s: &[char]) -> (r: Vec<char>)
    ensures
        r@ == rust_item_body(s@),
{
    let b2 = if starts_with_str(s, "pub(") {
        proof {
            reveal_strlit("pub(");
        }
        let tail = slice_of(s, 3, s.len());
        assert(tail@ =~= s@.skip(3));
        skip_parens_of(tail.as_slice())
    } else {
        let b1 = strip_word_of(s, "pub");
        skip_parens_of(b1.as_slice())
    };
    assert(b2@ == strip_visibility(s@));
    let b3 = strip_rust_modifiers(b2.as_slice());
    if b3.len() > 0 && b3[0] == '"' {
        let tail = slice_of(b3.as_slice(), 1, b3.len());
        assert(tail@ =~= b3@.skip(1));
        match find_char_in(tail.as_slice(), '"') {
            Some(i) => {
                proof {
                    lemma_find_char(tail@, '"');
                }
                let rest = slice_of(b3.as_slice(), i + 2, b3.len());
                assert(rest@ =~= b3@.skip(i + 2));
                trim_start_of(rest.as_slice())
            },
            None => b3,
        }
    } else {
        b3
    }
}

fn rust_item_name_of(kw: &[char], rest: &[char]) -> (r: Option<Vec<char>>)
    ensures
        opt_view(r) == rust_item_name(kw@, rest@),
{
    if eq_str(kw, "fn") {
        nonempty_of(ident_of(rest))
    } else if eq_str(kw, "struct") || eq_str(kw, "enum") || eq_str(kw, "trait") || eq_str(
        kw,
        "union",
    ) || eq_str(kw, "mod") || eq_str(kw, "type") {
        nonempty_of(ident_of(rest))
    } else if eq_str(kw, "const") || eq_str(kw, "static") {
        let (k2, r2) = split_keyword_of(rest);
        if eq_str(kw, "const") && eq_str(k2.as_slice(), "fn") {
            nonempty_of(ident_of(r2.as_slice()))
        } else {
            let after = strip_word_of(rest, "mut");
            nonempty_of(ident_of(after.as_slice()))
        }
    } else if eq_str(kw, "impl") {
        let d = clean_display_of(rest);
        if d.len() == 0 {
            None
        } else {
            let mut n = chars_of("impl ");
            let mut j: usize = 0;
            let ghost base = n@;
            while j < d.len()
                invariant
                    j <= d@.len(),
                    n@ == base + d@.take(j as int),
                decreases d@.len() - j,
            {
                n.push(d[j]);
                j = j + 1;
                assert(n@ =~= base + d@.take(j as int));
            }
            assert(d@.take(j as int) =~= d@);
            Some(n)
        }
    } else {
        None
    }
}

/// The definition a line of Rust opens, if any.
pub fn rust_line_name_of(raw: &[char]) -> (r: Option<Vec<char>>)
    ensures
        opt_view(r) == rust_line_name(raw@),
{
    let s = trim_start_of(raw);
    let ss = s.as_slice();
    if starts_with_str(ss, "//") || starts_with_str(ss, "/*") || starts_with_str(ss, "*") {
        return None;
    }
    if starts_with_str(ss, "macro_rules!") {
        let p = chars_of("macro_rules!");
        let rest = slice_of(ss, p.len(), ss.len());
        assert(rest@ =~= s@.skip("macro_rules!"@.len() as int));
        let t = trim_start_of(rest.as_slice());
        let mut n = ident_of(t.as_slice());
        if n.len() == 0 {
            return None;
        }
        n.push('!');
        assert(n@ =~= ident(t@) + seq!['!']);
        return Some(n);
    }
    let body = rust_item_body_of(ss);
    let (kw, rest) = split_keyword_of(body.as_slice());
    rust_item_name_of(kw.as_slice(), rest.as_slice())
}

// ---------------------------------------------------------------------------
// Go
// ---------------------------------------------------------------------------
/// The definition a line of Go opens, if any.
pub open spec fn go_line_name(raw: Seq<char>) -> Option<Seq<char>> {
    let s = trim_start(raw);
    if starts_with(s, "//"@) {
        None
    } else {
        let (kw, rest) = split_keyword(s);
        if kw == "func"@ {
            // Method receiver: `func (r Recv) Name(...)`
            nonempty(ident(skip_parens(rest)))
        } else if kw == "type"@ {
            nonempty(ident(rest))
        } else {
            None
        }
    }
}

pub fn go_line_name_of(raw: &[char]) -> (r: Option<Vec<char>>)
    ensures
        opt_view(r) == go_line_name(raw@),
{
    let s = trim_start_of(raw);
    if starts_with_str(s.as_slice(), "//") {
        return None;
    }
    let (kw, rest) = split_keyword_of(s.as_slice());
    if eq_str(kw.as_slice(), "func") {
        let r = skip_parens_of(rest.as_slice());
        nonempty_of(ident_of(r.as_slice()))
    } else if eq_str(kw.as_slice(), "type") {
        nonempty_of(ident_of(rest.as_slice()))
    } else {
        None
    }
}

// ---------------------------------------------------------------------------
// Python
// ---------------------------------------------------------------------------
/// The definition a line of Python opens, if any.
pub open spec fn python_line_name(raw: Seq<char>) -> Option<Seq<char>> {
    let s = trim_start(raw);
    if starts_with(s, "#"@) {
        None
    } else {
        let (kw, rest) = split_keyword(strip_word(s, "async"@));
        if kw == "def"@ || kw == "class"@ {
            nonempty(ident(rest))
        } else {
            None
        }
    }
}

pub fn python_line_name_of(raw: &[char]) -> (r: Option<Vec<char>>)
    ensures
        opt_view(r) == python_line_name(raw@),
{
    let s = trim_start_of(raw);
    if starts_with_str(s.as_slice(), "#") {
        return None;
    }
    let body = strip_word_of(s.as_slice(), "async");
    let (kw, rest) = split_keyword_of(body.as_slice());
    if eq_str(kw.as_slice(), "def") || eq_str(kw.as_slice(), "class") {
        nonempty_of(ident_of(rest.as_slice()))
    } else {
        None
    }
}

// ---------------------------------------------------------------------------
// C and C++
// ---------------------------------------------------------------------------
pub open spec fn is_control_keyword(n: Seq<char>) -> bool {
    n == "if"@ || n == "for"@ || n == "while"@ || n == "switch"@ || n == "return"@ || n
        == "sizeof"@ || n == "catch"@ || n == "do"@ || n == "else"@
}

/// Best-effort detection of a C/C++ function definition on a single line:
/// the name in `... name(...) {`, where a `{` opens a body that no earlier
/// `;` ends, a return type or qualifier precedes the name, and the name is
/// not a control-flow keyword.
pub open spec fn c_function_name(s: Seq<char>) -> Option<Seq<char>> {
    match find_char(s, '(') {
        None => None,
        Some(open) => match find_char(s, '{') {
            None => None,
            Some(b) => if (match find_char(s, ';') {
                Some(sc) => sc < b,
                None => false,
            }) {
                None
            } else {
                let head = trim_end(s.take(open));
                let st = rspan_to(head, CharClass::CName, head.len() as int);
                let name = head.skip(st);
                if st == head.len() {
                    None
                } else if is_control_keyword(name) {
                    None
                } else if all_ws(head.take(st)) {
                    None
                } else {
                    Some(name)
                }
            },
        },
    }
}

pub fn c_function_name_of(s: &[char]) -> (r: Option<Vec<char>>)
    ensures
        opt_view(r) == c_function_name(s@),
{
    let open = match find_char_in(s, '(') {
        Some(o) => o,
        None => return None,
    };
    let brace = find_char_in(s, '{');
    let semi = find_char_in(s, ';');
    match (brace, semi) {
        (Some(b), Some(sc)) => if sc < b {
            return None;
        },
        (None, _) => return None,
        _ => {},
    }
    let head0 = slice_of(s, 0, open);
    assert(head0@ =~= s@.take(open as int));
    let head = trim_end_of(head0.as_slice());
    let st = rspan(head.as_slice(), CharClass::CName, head.len());
    if st == head.len() {
        return None;
    }
    let name = slice_of(head.as_slice(), st, head.len());
    assert(name@ =~= head@.skip(st as int));
    let n = name.as_slice();
    if eq_str(n, "if") || eq_str(n, "for") || eq_str(n, "while") || eq_str(n, "switch") || eq_str(
        n,
        "return",
    ) || eq_str(n, "sizeof") || eq_str(n, "catch") || eq_str(n, "do") || eq_str(n, "else") {
        return None;
    }
    let before = slice_of(head.as_slice(), 0, st);
    assert(before@ =~= head@.take(st as int));
    let ws_end = span(before.as_slice(), CharClass::Whitespace, 0);
    if ws_end == before.len() {
        return None;
    }
    Some(name)
}

/// The definition a line of C or C++ opens, if any.
pub open spec fn c_line_name(raw: Seq<char>) -> Option<Seq<char>> {
    let s = trim_start(raw);
    if starts_with(s, "//"@) || starts_with(s, "/*"@) || starts_with(s, "*"@) || starts_with(
        s,
        "#"@,
    ) {
        None
    } else {
        let (kw, rest) = split_keyword(s);
        let n = ident(strip_word(rest, "final"@));
        if (kw == "struct"@ || kw == "class"@ || kw == "enum"@ || kw == "union"@ || kw
            == "namespace"@) && n.len() > 0 {
            Some(n)
        } else {
            c_function_name(s)
        }
    }
}

pub fn c_line_name_of(raw: &[char]) -> (r: Option<Vec<char>>)
    ensures
        opt_view(r) == c_line_name(raw@),
{
    let s = trim_start_of(raw);
    let ss = s.as_slice();
    if starts_with_str(ss, "//") || starts_with_str(ss, "/*") || starts_with_str(ss, "*")
        || starts_with_str(ss, "#") {
        return None;
    }
    let (kw, rest) = split_keyword_of(ss);
    let k = kw.as_slice();
    if eq_str(k, "struct") || eq_str(k, "class") || eq_str(k, "enum") || eq_str(k, "union")
        || eq_str(k, "namespace") {
        let after = strip_word_of(rest.as_slice(), "final");
        let n = ident_of(after.as_slice());
        if n.len() > 0 {
            return Some(n);
        }
    }
    c_function_name_of(ss)
}

// ---------------------------------------------------------------------------
// Outlines
// ---------------------------------------------------------------------------
/// The definition a line opens, for the given language.
pub open spec fn line_name(lang: CodeLanguage, raw: Seq<char>) -> Option<Seq<char>> {
    match lang {
        CodeLanguage::Rust => rust_line_name(raw),
        CodeLanguage::Go => go_line_name(raw),
        CodeLanguage::Python => python_line_name(raw),
        CodeLanguage::C | CodeLanguage::Cpp => c_line_name(raw),
    }
}

/// The outline of a list of lines: one entry, in order, for each line that
/// opens a definition, with its indentation level and 1-based line number.
pub open spec fn outline_of_lines(ls: Seq<Seq<char>>, lang: CodeLanguage) -> Seq<EntryView>
    decreases ls.len(),
{
    if ls.len() == 0 {
        seq![]
    } else {
        outline_of_lines(ls.drop_last(), lang) + match line_name(lang, ls.last()) {
            Some(n) => seq![EntryView { level: indent_level(ls.last()), name: n, line: ls.len() as int }],
            None => seq![],
        }
    }
}

/// The outline of a source text.
pub open spec fn outline(source: Seq<char>, lang: CodeLanguage) -> Seq<EntryView> {
    outline_of_lines(lines(source), lang)
}

fn line_name_of(lang: CodeLanguage, raw: &[char]) -> (r: Option<Vec<char>>)
    ensures
        opt_view(r) == line_name(lang, raw@),
{
    match lang {
        CodeLanguage::Rust => rust_line_name_of(raw),
        CodeLanguage::Go => go_line_name_of(raw),
        CodeLanguage::Python => python_line_name_of(raw),
        CodeLanguage::C | CodeLanguage::Cpp => c_line_name_of(raw),
    }
}

/// Extract an outline of definitions from source code for the given language.
pub fn extract_outline(source: &str, lang: CodeLanguage) -> (r: Vec<OutlineEntry>)
    ensures
        entries_view(r@) == outline(source@, lang),
{
    let chars = chars_of(source);
    let ls = split_lines(chars.as_slice());
    let ghost lsv = lines(source@);
    let mut out: Vec<OutlineEntry> = Vec::new();
    let mut i: usize = 0;
    while i < ls.len()
        invariant
            i <= ls@.len(),
            ls@.len() == lsv.len(),
            forall|j: int| 0 <= j < ls@.len() ==> (#[trigger] ls@[j])@ == lsv[j],
            entries_view(out@) == outline_of_lines(lsv.take(i as int), lang),
        decreases ls@.len() - i,
    {
        let line = ls[i].as_slice();
        let found = line_name_of(lang, line);
        proof {
            assert(lsv.take(i + 1).drop_last() =~= lsv.take(i as int));
            assert(lsv.take(i + 1).last() == lsv[i as int]);
        }
        match found {
            Some(n) => {
                let level = indent_level_of(line);
                let name = string_of(n.as_slice());
                let ghost before = out@;
                out.push(OutlineEntry { level, name, line: i + 1 });
                assert(out@.len() == before.len() + 1);
                assert(forall|j: int| 0 <= j < before.len() ==> out@[j] == before[j]);
                assert(entries_view(out@) =~= entries_view(before) + seq![
                    EntryView { level: indent_level(lsv[i as int]), name: n@, line: i + 1 },
                ]);
            },
            None => {},
        }
        i = i + 1;
    }
    assert(lsv.take(i as int) =~= lsv);
    out
}

/// The Rust outline of `source`.
pub fn extract_rust(source: &str) -> (r: Vec<OutlineEntry>)
    ensures
        entries_view(r@) == outline(source@, CodeLanguage::Rust),
{
    extract_outline(source, CodeLanguage::Rust)
}

/// The Go outline of `source`.
pub fn extract_go(source: &str) -> (r: Vec<OutlineEntry>)
    ensures
        entries_view(r@) == outline(source@, CodeLanguage::Go),
{
    extract_outline(source, CodeLanguage::Go)
}

/// The Python outline of `source`.
pub fn extract_python(source: &str) -> (r: Vec<OutlineEntry>)
    ensures
        entries_view(r@) == outline(source@, CodeLanguage::Python),
{
    extract_outline(source, CodeLanguage::Python)
}

/// The C or C++ outline of `source`.
pub fn extract_c_like(source: &str) -> (r: Vec<OutlineEntry>)
    ensures
        entries_view(r@) == outline(source@, CodeLanguage::C),
{
    extract_outline(source, CodeLanguage::C)
}

/// Convenience: detect the language from `path` and extract the outline,
/// returning an empty vector for unsupported file types.
pub fn outline_for_path(path: &str, source: &str) -> (r: Vec<OutlineEntry>)
    ensures
        entries_view(r@) == match language_for_extension(path_extension(path@)) {
            Some(lang) => outline(source@, lang),
            None => seq![],
        },
{
    match CodeLanguage::from_path(path) {
        Some(lang) => extract_outline(source, lang),
        None => {
            let r: Vec<OutlineEntry> = Vec::new();
            assert(entries_view(r@) =~= seq![]);
            r
        },
    }
}


// ---------------------------------------------------------------------------
// Laws
// ---------------------------------------------------------------------------
/// Entries point at lines `1..=n` that open the named definition, with a
/// level from 1 to 6, and come in strictly increasing line order.
pub open spec fn outline_in_order(es: Seq<EntryView>, ls: Seq<Seq<char>>, lang: CodeLanguage) -> bool {
    &&& forall|i: int|
        0 <= i < es.len() ==> 1 <= #[trigger] es[i].line <= ls.len() && 1 <= es[i].level <= 6
            && line_name(lang, ls[es[i].line - 1]) == Some(es[i].name)
    &&& forall|i: int, j: int|
        0 <= i < j < es.len() ==> (#[trigger] es[i]).line < (#[trigger] es[j]).line
}

proof fn lemma_outline_of_lines(ls: Seq<Seq<char>>, lang: CodeLanguage)
    ensures
        outline_in_order(outline_of_lines(ls, lang), ls, lang),
    decreases ls.len(),
{
    if ls.len() > 0 {
        let init = ls.drop_last();
        lemma_outline_of_lines(init, lang);
        let prev = outline_of_lines(init, lang);
        let es = outline_of_lines(ls, lang);
        lemma_indent_cols_nonneg(ls.last(), 0);
        assert forall|i: int| 0 <= i < es.len() implies 1 <= #[trigger] es[i].line <= ls.len()
            && 1 <= es[i].level <= 6 && line_name(lang, ls[es[i].line - 1]) == Some(
            es[i].name,
        ) by {
            if i < prev.len() {
                assert(es[i] == prev[i]);
                assert(ls[prev[i].line - 1] == init[prev[i].line - 1]);
            }
        }
        assert forall|i: int, j: int| 0 <= i < j < es.len() implies (#[trigger] es[i]).line
            < (#[trigger] es[j]).line by {
            if j < prev.len() {
                assert(es[i] == prev[i] && es[j] == prev[j]);
            } else {
                assert(es[i] == prev[i]);
            }
        }
    }
}

/// An outline lists, in strictly increasing line order, lines of the
/// source that open a definition, each with its name and a level from 1
/// to 6.
pub proof fn lemma_outline_in_order(source: Seq<char>, lang: CodeLanguage)
    ensures
        outline_in_order(outline(source, lang), lines(source), lang),
{
    lemma_outline_of_lines(lines(source), lang);
}

proof fn lemma_not_prefix(s: Seq<char>, w: Seq<char>, j: int)
    requires
        0 <= j < w.len(),
        j < s.len(),
        s[j] != w[j],
    ensures
        !starts_with(s, w),
{
    if starts_with(s, w) {
        assert(s.take(w.len() as int)[j] == s[j]);
    }
}

/// A word the line does not start with: the two differ in one of their
/// first three characters.
proof fn lemma_not_word(s: Seq<char>, w: Seq<char>)
    requires
        s.len() >= 3,
        w.len() >= 3,
        s[0] != w[0] || s[1] != w[1] || s[2] != w[2],
    ensures
        !starts_with(s, w),
        strip_word(s, w) == s,
{
    if s[0] != w[0] {
        lemma_not_prefix(s, w, 0);
    } else if s[1] != w[1] {
        lemma_not_prefix(s, w, 1);
    } else {
        lemma_not_prefix(s, w, 2);
    }
}

/// A line starting with a word that is no visibility, modifier, ABI string
/// or parenthesis is its own item body.
proof fn lemma_plain_body(b: Seq<char>)
    requires
        b.len() >= 3,
        !is_ws(b[0]),
        b[0] != 'p',
        b[0] != '(',
        b[0] != '"',
        !starts_with(b, "default"@),
        !starts_with(b, "async"@),
        !starts_with(b, "unsafe"@),
        !starts_with(b, "extern"@),
    ensures
        rust_item_body(b) == b,
        rust_item_body("pub "@ + b) == b,
{
    reveal_strlit("pub ");
    reveal_strlit("pub");
    reveal_strlit("pub(");
    reveal_strlit("default");
    reveal_strlit("async");
    reveal_strlit("unsafe");
    reveal_strlit("extern");
    lemma_not_prefix(b, "pub("@, 0);
    lemma_not_prefix(b, "pub"@, 0);
    assert(strip_visibility(b) == b);
    let line = "pub "@ + b;
    lemma_not_prefix(line, "pub("@, 3);
    assert(line.take(3) =~= "pub"@);
    assert(is_ws(line[3]));
    let t = line.skip(3);
    assert(t =~= seq![' '] + b);
    lemma_span_run(t, CharClass::Whitespace, 0, 1);
    assert(trim_start(t) =~= b);
    assert(strip_visibility(line) == b);
    let ws = rust_modifiers();
    assert(strip_each(b, ws) == b) by {
        reveal_with_fuel(strip_each, 5);
        assert(ws.drop_first() =~= seq!["async"@, "unsafe"@, "extern"@]);
        assert(ws.drop_first().drop_first() =~= seq!["unsafe"@, "extern"@]);
        assert(ws.drop_first().drop_first().drop_first() =~= seq!["extern"@]);
        assert(ws.drop_first().drop_first().drop_first().drop_first() =~= Seq::<Seq<char>>::empty());
    }
    assert(strip_words(b, ws) == b);
}

/// After a keyword of letters and a space, the keyword is split off and the
/// identifier that follows is read whole.
proof fn lemma_keyword_then_name(kw: Seq<char>, id: Seq<char>, rest: Seq<char>)
    requires
        kw.len() > 0,
        !is_ws(kw[0]),
        forall|i: int| 0 <= i < kw.len() ==> is_alnum(#[trigger] kw[i]),
        !is_alnum(' '),
        id.len() > 0,
        !is_ws(id[0]),
        forall|i: int| 0 <= i < id.len() ==> in_class(#[trigger] id[i], CharClass::Ident),
        rest.len() == 0 || !in_class(rest[0], CharClass::Ident),
    ensures
        split_keyword(kw + seq![' '] + id + rest) == (kw, id + rest),
        ident(id + rest) == id,
{
    let b = kw + seq![' '] + id + rest;
    assert(b[0] == kw[0]);
    lemma_span_run(b, CharClass::Whitespace, 0, 0);
    assert(trim_start(b) =~= b);
    assert forall|m: int| 0 <= m < kw.len() implies in_class(#[trigger] b[m], CharClass::Keyword) by {
        assert(b[m] == kw[m]);
    }
    assert(b[kw.len() as int] == ' ');
    lemma_span_run(b, CharClass::Keyword, 0, kw.len() as int);
    assert(b.take(kw.len() as int) =~= kw);
    let after = b.skip(kw.len() as int);
    assert(after =~= seq![' '] + (id + rest));
    lemma_span_run(after, CharClass::Whitespace, 0, 1);
    assert(trim_start(after) =~= id + rest);
    let ir = id + rest;
    assert forall|m: int| 0 <= m < id.len() implies in_class(#[trigger] ir[m], CharClass::Ident) by {
        assert(ir[m] == id[m]);
    }
    if rest.len() > 0 {
        assert(ir[id.len() as int] == rest[0]);
    }
    lemma_span_run(ir, CharClass::Ident, 0, id.len() as int);
    assert(ident(ir) =~= id);
}

/// A line that starts with no whitespace, no comment and no `macro_rules!`
/// is read as an item: its keyword after visibility and modifiers, and the
/// name that keyword defines.
proof fn lemma_item_line(line: Seq<char>)
    requires
        line.len() >= 2,
        !is_ws(line[0]),
        line[0] != '/',
        line[0] != '*',
        line[0] != 'm' || line[1] != 'a',
    ensures
        rust_line_name(line) == rust_item_name(
            split_keyword(rust_item_body(line)).0,
            split_keyword(rust_item_body(line)).1,
        ),
{
    reveal_strlit("//");
    reveal_strlit("/*");
    reveal_strlit("*");
    reveal_strlit("macro_rules!");
    lemma_span_run(line, CharClass::Whitespace, 0, 0);
    assert(trim_start(line) =~= line);
    lemma_not_prefix(line, "//"@, 0);
    lemma_not_prefix(line, "/*"@, 0);
    lemma_not_prefix(line, "*"@, 0);
    if line[0] != 'm' {
        lemma_not_prefix(line, "macro_rules!"@, 0);
    } else {
        lemma_not_prefix(line, "macro_rules!"@, 1);
    }
}

/// A Rust line `fn`, `struct`, `enum`, `trait`, `union`, `mod` or `type`
/// (public or not), a space and an identifier names what it defines by
/// that identifier, whatever follows the identifier (generics, a body, an
/// `=`, ...). The keyword's letters count as alphanumeric and a space does
/// not, as `char::is_alphanumeric` has them.
pub proof fn lemma_rust_type_items(kw: Seq<char>, id: Seq<char>, rest: Seq<char>, public: bool)
    requires
        kw == "fn"@ || kw == "struct"@ || kw == "enum"@ || kw == "trait"@ || kw == "union"@ || kw
            == "mod"@ || kw == "type"@,
        forall|i: int| 0 <= i < kw.len() ==> is_alnum(#[trigger] kw[i]),
        !is_alnum(' '),
        id.len() > 0,
        !is_ws(id[0]),
        forall|i: int| 0 <= i < id.len() ==> in_class(#[trigger] id[i], CharClass::Ident),
        rest.len() == 0 || !in_class(rest[0], CharClass::Ident),
    ensures
        line_name(
            CodeLanguage::Rust,
            (if public {
                "pub "@
            } else {
                seq![]
            }) + kw + seq![' '] + id + rest,
        ) == Some(id),
{
    reveal_strlit("struct");
    reveal_strlit("enum");
    reveal_strlit("trait");
    reveal_strlit("union");
    reveal_strlit("mod");
    reveal_strlit("type");
    reveal_strlit("pub ");
    reveal_strlit("default");
    reveal_strlit("async");
    reveal_strlit("unsafe");
    reveal_strlit("extern");
    reveal_strlit("fn");
    let b = kw + seq![' '] + id + rest;
    assert(kw.len() >= 2);
    assert(b[0] == kw[0] && b[1] == kw[1]);
    if kw.len() >= 3 {
        assert(b[2] == kw[2]);
    } else {
        assert(b[2] == ' ');
    }
    lemma_not_word(b, "default"@);
    lemma_not_word(b, "async"@);
    lemma_not_word(b, "unsafe"@);
    lemma_not_word(b, "extern"@);
    lemma_plain_body(b);
    lemma_keyword_then_name(kw, id, rest);
    let line = (if public {
        "pub "@
    } else {
        seq![]
    }) + b;
    if public {
        assert(line =~= "pub "@ + b);
        assert(line[0] == 'p' && line[1] == 'u');
    } else {
        assert(line =~= b);
    }
    lemma_item_line(line);
    assert(line =~= (if public {
        "pub "@
    } else {
        seq![]
    }) + kw + seq![' '] + id + rest);
}

} // verus!
