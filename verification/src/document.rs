//! Document formats and Pelican-style metadata of Markdown files.
use vstd::prelude::*;

use crate::render::{markdown_events, md_items, parse_markdown, MdEvent};

use crate::pathname::{path_extension, path_extension_of};
use crate::text::{
    chars_of, eq_str, find_seq_from, find_str_in, lemma_find_seq_from, lemma_span_bounds,
    in_class, lemma_span_run, occurs_at, slice_of, span, span_from, string_of, strip_cr, trim, trim_of, CharClass,
};

verus! {

/// Supported document formats.
#[derive(Debug, Clone, Copy, PartialEq, Eq, Structural)]
pub enum Format {
    Markdown,
    ReStructuredText,
    OrgMode,
    Plain,
}

/// The format that a file extension stands for.
pub open spec fn format_for_extension(ext: Option<Seq<char>>) -> Format {
    match ext {
        Some(e) => if e == "md"@ || e == "markdown"@ || e == "mkd"@ || e == "mdx"@ {
            Format::Markdown
        } else if e == "rst"@ || e == "rest"@ {
            Format::ReStructuredText
        } else if e == "org"@ {
            Format::OrgMode
        } else {
            Format::Plain
        },
        None => Format::Plain,
    }
}

impl Format {
    /// The format for a file extension (`None` for a path without one).
    pub fn from_extension(ext: Option<&str>) -> (r: Format)
        ensures
            r == format_for_extension(
                match ext {
                    Some(e) => Some(e@),
                    None => None,
                },
            ),
    {
        match ext {
            None => Format::Plain,
            Some(e) => {
                let c = chars_of(e);
                let s = c.as_slice();
                if eq_str(s, "md") || eq_str(s, "markdown") || eq_str(s, "mkd") || eq_str(s, "mdx") {
                    Format::Markdown
                } else if eq_str(s, "rst") || eq_str(s, "rest") {
                    Format::ReStructuredText
                } else if eq_str(s, "org") {
                    Format::OrgMode
                } else {
                    Format::Plain
                }
            },
        }
    }

    /// Detect document format from file extension.
    pub fn from_path(path: &str) -> (r: Format)
        ensures
            r == format_for_extension(path_extension(path@)),
    {
        let ext = path_extension_of(path);
        match ext {
            Some(e) => Format::from_extension(Some(e.as_str())),
            None => Format::from_extension(None),
        }
    }
}

/// The name a format goes by in the desktop viewer.
pub open spec fn format_name(f: Format) -> Seq<char> {
    match f {
        Format::Markdown => "Markdown"@,
        Format::ReStructuredText => "ReStructuredText"@,
        Format::OrgMode => "OrgMode"@,
        Format::Plain => "Plain"@,
    }
}

impl Format {
    /// The format's name, as the desktop viewer reports it with a document.
    pub fn name(&self) -> (r: String)
        ensures
            r@ == format_name(*self),
    {
        match self {
            Format::Markdown => "Markdown".to_owned(),
            Format::ReStructuredText => "ReStructuredText".to_owned(),
            Format::OrgMode => "OrgMode".to_owned(),
            Format::Plain => "Plain".to_owned(),
        }
    }
}

/// A parsed document ready for rendering.
#[derive(Debug)]
pub struct Document {
    pub format: Format,
    pub source: String,
}

impl Document {
    /// A document of the format that `path` names, holding `source`.
    pub fn from_source(path: &str, source: String) -> (r: Document)
        ensures
            r.format == format_for_extension(path_extension(path@)),
            r.source@ == source@,
    {
        let format = Format::from_path(path);
        Document { format, source }
    }
}

// ---------------------------------------------------------------------------
// Pelican metadata
// ---------------------------------------------------------------------------
pub open spec fn is_meta_key_char(c: char) -> bool {
    ('a' <= c && c <= 'z') || ('A' <= c && c <= 'Z') || ('0' <= c && c <= '9') || c == '-' || c
        == '_'
}

/// The `(key, value)` a `Key: value` metadata line holds: the key before the
/// first `": "` is non-empty and made of ASCII letters, digits, `-` and
/// `_`; the value is the rest, trimmed.
pub open spec fn meta_line(line: Seq<char>) -> Option<(Seq<char>, Seq<char>)> {
    match find_seq_from(line, ": "@, 0) {
        Some(p) => {
            let key = line.take(p);
            if key.len() > 0 && forall|j: int| 0 <= j < key.len() ==> is_meta_key_char(key[j]) {
                Some((key, trim(line.skip(p + 2))))
            } else {
                None
            }
        },
        None => None,
    }
}

/// Outcome of reading the metadata block.
pub enum MetaScan {
    /// A line that is neither blank nor `Key: value` came first.
    NotMetadata,
    /// The pairs read, and where the content after them starts.
    Read(Seq<(Seq<char>, Seq<char>)>, int),
}

/// The line that starts at `pos`, as `str::lines` gives it (without its
/// line break), and where the text after its line break starts.
pub open spec fn line_at(s: Seq<char>, pos: int) -> (Seq<char>, int) {
    let k = span_from(s, CharClass::Not('\n'), pos);
    if k >= s.len() {
        (s.subrange(pos, s.len() as int), s.len() as int)
    } else {
        (strip_cr(s.subrange(pos, k)), k + 1)
    }
}

/// Reads metadata lines from position `pos` on, ending at the first blank
/// line; the content starts after that blank line's line break.
pub open spec fn scan_meta(s: Seq<char>, pos: int, meta: Seq<(Seq<char>, Seq<char>)>) -> MetaScan
    decreases s.len() - pos,
{
    if pos < 0 || pos >= s.len() {
        MetaScan::Read(meta, pos)
    } else {
        proof {
            lemma_span_bounds(s, CharClass::Not('\n'), pos);
        }
        let (line, next) = line_at(s, pos);
        if line.len() == 0 {
            MetaScan::Read(meta, next)
        } else {
            match meta_line(line) {
                Some(kv) => scan_meta(s, next, meta.push(kv)),
                None => MetaScan::NotMetadata,
            }
        }
    }
}

/// Pelican-style metadata at the top of a Markdown text, and the content
/// after it: what follows the blank line (and its line break) that ends
/// the metadata. Without a metadata block, no pairs and the whole source.
pub open spec fn metadata_split(s: Seq<char>) -> (Seq<(Seq<char>, Seq<char>)>, Seq<char>) {
    match scan_meta(s, 0, seq![]) {
        MetaScan::NotMetadata => (seq![], s),
        MetaScan::Read(meta, end) => if meta.len() == 0 {
            (seq![], s)
        } else {
            (
                meta,
                if end < s.len() {
                    s.skip(end)
                } else {
                    seq![]
                },
            )
        },
    }
}

pub open spec fn pairs_view(v: Seq<(String, String)>) -> Seq<(Seq<char>, Seq<char>)> {
    v.map_values(|p: (String, String)| (p.0@, p.1@))
}

fn meta_line_of(line: &[char]) -> (r: Option<(Vec<char>, Vec<char>)>)
    ensures
        match r {
            Some(kv) => meta_line(line@) == Some((kv.0@, kv.1@)),
            None => meta_line(line@) is None,
        },
{
    let p = match find_str_in(line, ": ") {
        Some(p) => p,
        None => return None,
    };
    proof {
        lemma_find_seq_from(line@, ": "@, 0);
        reveal_strlit(": ");
        assert(": "@.len() == 2);
        assert(find_seq_from(line@, ": "@, 0) == Some(p as int));
        assert(occurs_at(line@, ": "@, p as int));
    }
    if p == 0 {
        return None;
    }
    let ll = line.len();
    let mut j: usize = 0;
    while j < p
        invariant
            ll == line@.len(),
            p + 2 <= line@.len(),
            find_seq_from(line@, ": "@, 0) == Some(p as int),
            j <= p,
            forall|m: int| 0 <= m < j ==> is_meta_key_char(line@[m]),
        decreases p - j,
    {
        let c = line[j];
        if !(('a' <= c && c <= 'z') || ('A' <= c && c <= 'Z') || ('0' <= c && c <= '9') || c
            == '-' || c == '_') {
            proof {
                let key = line@.take(p as int);
                assert(!is_meta_key_char(key[j as int]));
                assert(!(forall|m: int| 0 <= m < key.len() ==> is_meta_key_char(key[m])));
            }
            return None;
        }
        j = j + 1;
    }
    let key = slice_of(line, 0, p);
    let rest = slice_of(line, p + 2, line.len());
    let value = trim_of(rest.as_slice());
    assert(key@ =~= line@.take(p as int));
    assert(rest@ =~= line@.skip(p + 2));
    Some((key, value))
}

/// Extract Pelican-style metadata from the top of a Markdown file.
/// Returns (metadata key-value pairs, remaining content).
/// Metadata format: `Key: value` lines at the start, ending at first blank line.
pub fn extract_metadata(source: &str) -> (r: (Vec<(String, String)>, String))
    ensures
        (pairs_view(r.0@), r.1@) == metadata_split(source@),
{
    let s = chars_of(source);
    let n = s.len();
    let mut meta: Vec<(String, String)> = Vec::new();
    let mut end: usize = 0;
    let mut pos: usize = 0;
    let mut stopped = false;
    assert(pairs_view(meta@) =~= seq![]);
    while pos < n && !stopped
        invariant
            n == s@.len(),
            s@ == source@,
            pos <= n,
            end <= n,
            scan_meta(s@, 0, seq![]) == if stopped {
                MetaScan::Read(pairs_view(meta@), end as int)
            } else {
                scan_meta(s@, pos as int, pairs_view(meta@))
            },
        decreases n - pos, if stopped { 0int } else { 1int },
    {
        let k = span(s.as_slice(), CharClass::Not('\n'), pos);
        let mut line = slice_of(s.as_slice(), pos, k);
        if k < n && line.len() > 0 && line[line.len() - 1] == '\r' {
            line.pop();
        }
        let next = if k < n {
            k + 1
        } else {
            n
        };
        proof {
            lemma_span_bounds(s@, CharClass::Not('\n'), pos as int);
            if k < n {
                assert(line@ =~= strip_cr(s@.subrange(pos as int, k as int)));
            } else {
                assert(line@ =~= s@.subrange(pos as int, n as int));
            }
            assert(line_at(s@, pos as int) == (line@, next as int));
        }
        if line.len() == 0 {
            end = next;
            stopped = true;
        } else {
            match meta_line_of(line.as_slice()) {
                Some(kv) => {
                    let key = string_of(kv.0.as_slice());
                    let value = string_of(kv.1.as_slice());
                    let ghost before = meta@;
                    meta.push((key, value));
                    assert(pairs_view(meta@) =~= pairs_view(before).push((kv.0@, kv.1@))) by {
                        assert(meta@.len() == before.len() + 1);
                        assert(forall|j: int| 0 <= j < before.len() ==> meta@[j] == before[j]);
                    };
                    pos = next;
                },
                None => {
                    let whole = string_of(s.as_slice());
                    let none: Vec<(String, String)> = Vec::new();
                    assert(pairs_view(none@) =~= seq![]);
                    return (none, whole);
                },
            }
        }
    }
    if !stopped {
        end = pos;
    }
    if meta.len() == 0 {
        let whole = string_of(s.as_slice());
        return (meta, whole);
    }
    if end < n {
        let rest = slice_of(s.as_slice(), end, n);
        assert(rest@ =~= s@.skip(end as int));
        (meta, string_of(rest.as_slice()))
    } else {
        assert(Seq::<char>::empty() =~= seq![]);
        (meta, String::new())
    }
}


/// A Markdown parser with full GFM options enabled (tables, footnotes,
/// strikethrough, task lists): the events it reports for `source`.
pub fn parser(source: &str) -> (r: Vec<MdEvent>)
    ensures
        md_items(r@) == markdown_events(source@),
{
    parse_markdown(source)
}

// ---------------------------------------------------------------------------
// What a metadata block gives
// ---------------------------------------------------------------------------
/// The first `n` metadata lines `key: value`, each ended by a line break.
pub open spec fn meta_block(keys: Seq<Seq<char>>, values: Seq<Seq<char>>, n: int) -> Seq<char>
    decreases n,
{
    if n <= 0 {
        seq![]
    } else {
        meta_block(keys, values, n - 1) + (keys[n - 1] + seq![':', ' '] + values[n - 1]) + seq!['\n']
    }
}

proof fn lemma_meta_block_prefix(keys: Seq<Seq<char>>, values: Seq<Seq<char>>, m: int, n: int)
    requires
        0 <= m <= n,
    ensures
        meta_block(keys, values, m).len() <= meta_block(keys, values, n).len(),
        meta_block(keys, values, n).take(meta_block(keys, values, m).len() as int) == meta_block(
            keys,
            values,
            m,
        ),
    decreases n,
{
    if m < n {
        lemma_meta_block_prefix(keys, values, m, n - 1);
        let a = meta_block(keys, values, n - 1);
        let b = meta_block(keys, values, n);
        let l = meta_block(keys, values, m).len() as int;
        assert(b.take(l) =~= a.take(l));
    } else {
        let b = meta_block(keys, values, n);
        assert(b.take(b.len() as int) =~= b);
    }
}

proof fn lemma_find_first(s: Seq<char>, pat: Seq<char>, i: int, k: int)
    requires
        0 <= i <= k,
        occurs_at(s, pat, k),
        forall|m: int| i <= m < k ==> !occurs_at(s, pat, m),
    ensures
        find_seq_from(s, pat, i) == Some(k),
    decreases k - i,
{
    if i < k {
        lemma_find_first(s, pat, i + 1, k);
    }
}

/// A `key: value` line with a key of key characters holds that key and the
/// trimmed value.
proof fn lemma_meta_line(key: Seq<char>, value: Seq<char>)
    requires
        key.len() > 0,
        forall|j: int| 0 <= j < key.len() ==> is_meta_key_char(#[trigger] key[j]),
    ensures
        meta_line(key + seq![':', ' '] + value) == Some((key, trim(value))),
{
    reveal_strlit(": ");
    let line = key + seq![':', ' '] + value;
    let pat = ": "@;
    assert(pat =~= seq![':', ' ']);
    assert(line.subrange(key.len() as int, key.len() as int + 2) =~= pat);
    assert forall|m: int| 0 <= m < key.len() implies !occurs_at(line, pat, m) by {
        assert(line[m] == key[m]);
        assert(line.subrange(m, m + 2)[0] == line[m]);
    }
    lemma_find_first(line, pat, 0, key.len() as int);
    assert(line.take(key.len() as int) =~= key);
    assert(line.skip(key.len() as int + 2) =~= value);
}

/// The line at `pos`, without a line break or a final carriage return in
/// it and followed by a line break, is read whole.
proof fn lemma_line_at(s: Seq<char>, pos: int, line: Seq<char>)
    requires
        0 <= pos,
        pos + line.len() < s.len(),
        s.subrange(pos, pos + line.len()) == line,
        s[pos + line.len()] == '\n',
        forall|m: int| 0 <= m < line.len() ==> #[trigger] line[m] != '\n',
        line.len() == 0 || line.last() != '\r',
    ensures
        line_at(s, pos) == (line, pos + line.len() + 1),
{
    assert forall|m: int| pos <= m < pos + line.len() implies in_class(
        #[trigger] s[m],
        CharClass::Not('\n'),
    ) by {
        assert(s.subrange(pos, pos + line.len())[m - pos] == s[m]);
    }
    lemma_span_run(s, CharClass::Not('\n'), pos, pos + line.len());
}

/// The pairs a metadata block holds: each key with its trimmed value.
pub open spec fn block_pairs(keys: Seq<Seq<char>>, values: Seq<Seq<char>>) -> Seq<(Seq<char>, Seq<char>)> {
    Seq::new(keys.len(), |i: int| (keys[i], trim(values[i])))
}

/// Whether keys and values make a metadata block: as many of each, keys
/// non-empty and of key characters, values without line breaks or carriage
/// returns.
pub open spec fn block_ok(keys: Seq<Seq<char>>, values: Seq<Seq<char>>) -> bool {
    &&& keys.len() == values.len()
    &&& forall|i: int| 0 <= i < keys.len() ==> #[trigger] keys[i].len() > 0
    &&& forall|i: int, j: int|
        0 <= i < keys.len() && 0 <= j < keys[i].len() ==> is_meta_key_char(#[trigger] keys[i][j])
    &&& forall|i: int, j: int|
        0 <= i < values.len() && 0 <= j < values[i].len() ==> #[trigger] values[i][j] != '\n'
            && values[i][j] != '\r'
}

proof fn lemma_scan_block(keys: Seq<Seq<char>>, values: Seq<Seq<char>>, content: Seq<char>, k: int)
    requires
        block_ok(keys, values),
        0 <= k <= keys.len(),
    ensures
        scan_meta(
            meta_block(keys, values, keys.len() as int) + seq!['\n'] + content,
            meta_block(keys, values, k).len() as int,
            block_pairs(keys, values).take(k),
        ) == MetaScan::Read(
            block_pairs(keys, values),
            meta_block(keys, values, keys.len() as int).len() as int + 1,
        ),
    decreases keys.len() - k,
{
    let n = keys.len() as int;
    let bn = meta_block(keys, values, n);
    let s = bn + seq!['\n'] + content;
    let ps = block_pairs(keys, values);
    let pos = meta_block(keys, values, k).len() as int;
    if k == n {
        assert(s.subrange(pos, pos) =~= Seq::<char>::empty());
        lemma_line_at(s, pos, seq![]);
        assert(ps.take(k) =~= ps);
    } else {
        let line = keys[k] + seq![':', ' '] + values[k];
        lemma_meta_block_prefix(keys, values, k + 1, n);
        let b1 = meta_block(keys, values, k + 1);
        assert(b1 == meta_block(keys, values, k) + line + seq!['\n']);
        assert(s.take(b1.len() as int) =~= b1) by {
            assert(bn.take(b1.len() as int) == b1);
        }
        assert(s.subrange(pos, pos + line.len()) =~= line) by {
            assert forall|m: int| 0 <= m < line.len() implies s.subrange(pos, pos + line.len())[m]
                == line[m] by {
                assert(s[pos + m] == s.take(b1.len() as int)[pos + m]);
                assert(b1[pos + m] == line[m]);
            }
        }
        assert(s[pos + line.len()] == '\n') by {
            assert(s[pos + line.len()] == s.take(b1.len() as int)[pos + line.len()]);
        }
        assert forall|m: int| 0 <= m < line.len() implies #[trigger] line[m] != '\n' by {
            if m >= keys[k].len() + 2 {
                assert(line[m] == values[k][m - keys[k].len() - 2]);
            } else if m < keys[k].len() {
                assert(is_meta_key_char(keys[k][m]));
            }
        }
        if values[k].len() > 0 {
            assert(line.last() == values[k][values[k].len() - 1]);
        }
        lemma_line_at(s, pos, line);
        assert forall|j: int| 0 <= j < keys[k].len() implies is_meta_key_char(#[trigger] keys[k][j]) by {}
        lemma_meta_line(keys[k], values[k]);
        assert(ps.take(k).push(ps[k]) =~= ps.take(k + 1));
        lemma_scan_block(keys, values, content, k + 1);
    }
}

/// A metadata block of `Key: value` lines, however many, then a blank line
/// and the content: every line gives its pair, in order, and the content is
/// what follows the blank line.
pub proof fn lemma_metadata_block(keys: Seq<Seq<char>>, values: Seq<Seq<char>>, content: Seq<char>)
    requires
        block_ok(keys, values),
        keys.len() > 0,
    ensures
        metadata_split(meta_block(keys, values, keys.len() as int) + seq!['\n'] + content) == (
            block_pairs(keys, values),
            content,
        ),
{
    let n = keys.len() as int;
    let bn = meta_block(keys, values, n);
    let s = bn + seq!['\n'] + content;
    assert(meta_block(keys, values, 0).len() == 0);
    assert(block_pairs(keys, values).take(0) =~= seq![]);
    lemma_scan_block(keys, values, content, 0);
    assert(s.skip(bn.len() as int + 1) =~= content);
}

proof fn lemma_scan_end(s: Seq<char>, pos: int, meta: Seq<(Seq<char>, Seq<char>)>)
    requires
        0 <= pos,
    ensures
        scan_meta(s, pos, meta) matches MetaScan::Read(m, e) ==> pos <= e && (e <= s.len() || e == pos),
    decreases s.len() - pos,
{
    if pos < s.len() {
        lemma_span_bounds(s, CharClass::Not('\n'), pos);
        let (line, next) = line_at(s, pos);
        if line.len() != 0 {
            if meta_line(line) is Some {
                lemma_scan_end(s, next, meta.push(meta_line(line)->0));
            }
        }
    }
}

/// The content is always what ends the source: all of it when no metadata
/// was found, else what follows the metadata block.
pub proof fn lemma_metadata_content(s: Seq<char>)
    ensures
        s.skip(s.len() - metadata_split(s).1.len()) == metadata_split(s).1,
        metadata_split(s).0.len() == 0 ==> metadata_split(s).1 == s,
{
    lemma_scan_end(s, 0, seq![]);
    assert(s.skip(0) =~= s);
    match scan_meta(s, 0, seq![]) {
        MetaScan::Read(meta, end) => {
            if meta.len() > 0 && end < s.len() {
                assert(s.skip(s.len() - s.skip(end).len()) =~= s.skip(end));
            } else if meta.len() > 0 {
                assert(s.skip(s.len() as int) =~= Seq::<char>::empty());
            }
        },
        MetaScan::NotMetadata => {},
    }
}

} // verus!
