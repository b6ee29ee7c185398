//! Small HTML text utilities: entity decoding, tag stripping, escaping,
//! the metadata block, and the table of contents of rendered HTML.
use vstd::prelude::*;

use crate::document::pairs_view;
use crate::text::{
    all_ws, chars_of, eq_str, find_char, find_seq_from, lemma_find_char, lemma_find_seq_from,
    lemma_span_bounds, occurs_at, push_all, slice_of, span, span_from, string_of, trim, trim_of,
    CharClass,
};

verus! {

// ---------------------------------------------------------------------------
// Entities
// ---------------------------------------------------------------------------
/// Number of UTF-8 bytes a character takes (`char::len_utf8`).
pub open spec fn char_utf8_len(c: char) -> int {
    let u = c as u32;
    if u < 0x80 {
        1
    } else if u < 0x800 {
        2
    } else if u < 0x10000 {
        3
    } else {
        4
    }
}

/// Number of UTF-8 bytes a text takes.
pub open spec fn utf8_len(s: Seq<char>) -> int
    decreases s.len(),
{
    if s.len() == 0 {
        0
    } else {
        utf8_len(s.drop_last()) + char_utf8_len(s.last())
    }
}

proof fn lemma_utf8_len_mono(s: Seq<char>, a: int, b: int)
    requires
        0 <= a <= b <= s.len(),
    ensures
        utf8_len(s.take(a)) <= utf8_len(s.take(b)),
        utf8_len(s.take(a)) >= 0,
    decreases b,
{
    if b > a {
        assert(s.take(b).drop_last() =~= s.take(b - 1));
        lemma_utf8_len_mono(s, a, b - 1);
    } else if a > 0 {
        assert(s.take(a).drop_last() =~= s.take(a - 1));
        lemma_utf8_len_mono(s, a - 1, a - 1);
    } else {
        assert(s.take(0).len() == 0);
    }
}

fn char_utf8_len_of(c: char) -> (r: usize)
    ensures
        r == char_utf8_len(c),
{
    let u = c as u32;
    if u < 0x80 {
        1
    } else if u < 0x800 {
        2
    } else if u < 0x10000 {
        3
    } else {
        4
    }
}

/// Unicode scalar values: what `char::from_u32` accepts.
pub open spec fn valid_scalar(u: u32) -> bool {
    u < 0xD800 || (0xE000 <= u && u <= 0x10FFFF)
}

/// `char::from_u32`: the character with the given code point, or `None`
/// for a surrogate or a value above `0x10FFFF`.
#[verifier::external_body]
fn char_from_u32(u: u32) -> (r: Option<char>)
    ensures
        r == if valid_scalar(u) {
            Some(u as char)
        } else {
            None
        },
{
    char::from_u32(u)
}

/// Value of a digit in radix 10 or 16 (either case).
pub open spec fn digit_value(c: char, radix: int) -> Option<int> {
    if '0' <= c && c <= '9' {
        Some(c as int - '0' as int)
    } else if radix == 16 && 'a' <= c && c <= 'f' {
        Some(c as int - 'a' as int + 10)
    } else if radix == 16 && 'A' <= c && c <= 'F' {
        Some(c as int - 'A' as int + 10)
    } else {
        None
    }
}

pub open spec fn digits_value(d: Seq<char>, radix: int) -> int
    decreases d.len(),
{
    if d.len() == 0 {
        0
    } else {
        digits_value(d.drop_last(), radix) * radix + match digit_value(d.last(), radix) {
            Some(x) => x,
            None => 0,
        }
    }
}

/// The digits of a number: the text after an optional leading `+`.
pub open spec fn number_body(d: Seq<char>) -> Seq<char> {
    if d.len() > 0 && d[0] == '+' {
        d.skip(1)
    } else {
        d
    }
}

pub open spec fn all_digits(body: Seq<char>, radix: int) -> bool {
    forall|j: int| 0 <= j < body.len() ==> digit_value(#[trigger] body[j], radix) is Some
}

/// `u32::from_str_radix` (and `str::parse::<u32>` for radix 10): an
/// optional `+`, then one or more digits, with a value that fits in `u32`.
pub open spec fn parse_u32(d: Seq<char>, radix: int) -> Option<u32> {
    let body = number_body(d);
    if body.len() == 0 {
        None
    } else if all_digits(body, radix) {
        let v = digits_value(body, radix);
        if v <= u32::MAX {
            Some(v as u32)
        } else {
            None
        }
    } else {
        None
    }
}

fn digit_value_of(c: char, radix: u32) -> (r: Option<u32>)
    requires
        radix == 10 || radix == 16,
    ensures
        match r {
            Some(x) => digit_value(c, radix as int) == Some(x as int) && x < radix,
            None => digit_value(c, radix as int) is None,
        },
{
    if '0' <= c && c <= '9' {
        Some((c as u32) - ('0' as u32))
    } else if radix == 16 && 'a' <= c && c <= 'f' {
        Some((c as u32) - ('a' as u32) + 10)
    } else if radix == 16 && 'A' <= c && c <= 'F' {
        Some((c as u32) - ('A' as u32) + 10)
    } else {
        None
    }
}

proof fn lemma_digits_value_nonneg(d: Seq<char>, radix: int)
    requires
        radix >= 1,
    ensures
        digits_value(d, radix) >= 0,
    decreases d.len(),
{
    if d.len() > 0 {
        lemma_digits_value_nonneg(d.drop_last(), radix);
        let v = digits_value(d.drop_last(), radix);
        assert(v * radix >= 0) by (nonlinear_arith)
            requires
                v >= 0,
                radix >= 1,
        ;
    }
}

fn parse_u32_of(d: &[char], radix: u32) -> (r: Option<u32>)
    requires
        radix == 10 || radix == 16,
    ensures
        r == parse_u32(d@, radix as int),
{
    let start: usize = if d.len() > 0 && d[0] == '+' {
        1
    } else {
        0
    };
    let ghost body = number_body(d@);
    assert(body =~= d@.skip(start as int));
    if start == d.len() {
        return None;
    }
    let mut v: u64 = 0;
    let mut over = false;
    let mut j: usize = start;
    while j < d.len()
        invariant
            start <= j <= d@.len(),
            body == number_body(d@),
            body =~= d@.skip(start as int),
            radix == 10 || radix == 16,
            forall|m: int| 0 <= m < j - start ==> digit_value(#[trigger] body[m], radix as int) is Some,
            !over ==> v == digits_value(body.take(j - start), radix as int) && v <= u32::MAX,
            over ==> digits_value(body.take(j - start), radix as int) > u32::MAX,
        decreases d@.len() - j,
    {
        let x = match digit_value_of(d[j], radix) {
            Some(x) => x,
            None => {
                proof {
                    let m0 = (j - start) as int;
                    assert(body[m0] == d@[j as int]);
                    assert(digit_value(body[m0], radix as int) is None);
                    assert(0 <= m0 < body.len());
                    assert(!(forall|m: int|
                        0 <= m < body.len() ==> digit_value(#[trigger] body[m], radix as int) is Some));
                    assert(body.len() != 0);
                    assert(parse_u32(d@, radix as int) is None);
                }
                return None;
            },
        };
        proof {
            let k = (j - start) as int;
            let t = body.take(k + 1);
            assert(t.drop_last() =~= body.take(k));
            assert(t.last() == body[k]);
            lemma_digits_value_nonneg(body.take(k), radix as int);
            let pv = digits_value(body.take(k), radix as int);
            assert(pv * radix >= pv) by (nonlinear_arith)
                requires
                    pv >= 0,
                    radix >= 1,
            ;
        }
        if !over {
            assert(v * (radix as u64) <= 0xffff_ffffu64 * 16) by (nonlinear_arith)
                requires
                    v <= u32::MAX,
                    radix <= 16,
            ;
            v = v * (radix as u64) + (x as u64);
            if v > 0xffff_ffff {
                over = true;
            }
        }
        j = j + 1;
    }
    assert(body.take(j - start) =~= body);
    if over {
        None
    } else {
        Some(v as u32)
    }
}

/// The character a named or numeric entity body (between `&` and `;`)
/// stands for.
pub open spec fn entity_char(name: Seq<char>) -> Option<char> {
    if name == "amp"@ {
        Some('&')
    } else if name == "lt"@ {
        Some('<')
    } else if name == "gt"@ {
        Some('>')
    } else if name == "quot"@ {
        Some('"')
    } else if name == "apos"@ {
        Some('\'')
    } else if name == "nbsp"@ {
        Some(' ')
    } else if name.len() > 0 && name[0] == '#' {
        let num = name.skip(1);
        let code = if num.len() > 0 && (num[0] == 'x' || num[0] == 'X') {
            parse_u32(num.skip(1), 16)
        } else {
            parse_u32(num, 10)
        };
        match code {
            Some(u) => if valid_scalar(u) {
                Some(u as char)
            } else {
                None
            },
            None => None,
        }
    } else {
        None
    }
}

/// The entity starting with the `&` at index `i`: its character and how many
/// characters it spans. The body runs to the first `;` after the `&` and
/// takes at most 10 bytes.
pub open spec fn entity_at(s: Seq<char>, i: int) -> Option<(char, int)> {
    let rest = s.skip(i + 1);
    match find_char(rest, ';') {
        Some(k) => if utf8_len(rest.take(k)) <= 10 {
            match entity_char(rest.take(k)) {
                Some(c) => Some((c, k + 2)),
                None => None,
            }
        } else {
            None
        },
        None => None,
    }
}

/// Single-pass decoding of HTML entities from index `i` on: an escaped
/// entity such as `&amp;lt;` decodes to `&lt;`, and an `&` that starts no
/// known entity stays as it is.
pub open spec fn decode_from(s: Seq<char>, i: int) -> Seq<char>
    decreases s.len() - i,
{
    if i < 0 || i >= s.len() {
        seq![]
    } else if s[i] != '&' {
        seq![s[i]] + decode_from(s, i + 1)
    } else {
        match entity_at(s, i) {
            Some((c, n)) => if n >= 1 {
                seq![c] + decode_from(s, i + n)
            } else {
                seq![]
            },
            None => seq!['&'] + decode_from(s, i + 1),
        }
    }
}

fn entity_char_of(name: &[char]) -> (r: Option<char>)
    ensures
        r == entity_char(name@),
{
    if eq_str(name, "amp") {
        Some('&')
    } else if eq_str(name, "lt") {
        Some('<')
    } else if eq_str(name, "gt") {
        Some('>')
    } else if eq_str(name, "quot") {
        Some('"')
    } else if eq_str(name, "apos") {
        Some('\'')
    } else if eq_str(name, "nbsp") {
        Some(' ')
    } else if name.len() > 0 && name[0] == '#' {
        let num = slice_of(name, 1, name.len());
        assert(num@ =~= name@.skip(1));
        let code = if num.len() > 0 && (num[0] == 'x' || num[0] == 'X') {
            let hex = slice_of(num.as_slice(), 1, num.len());
            assert(hex@ =~= num@.skip(1));
            parse_u32_of(hex.as_slice(), 16)
        } else {
            parse_u32_of(num.as_slice(), 10)
        };
        match code {
            Some(u) => char_from_u32(u),
            None => None,
        }
    } else {
        None
    }
}

fn entity_at_of(s: &[char], i: usize) -> (r: Option<(char, usize)>)
    requires
        i < s@.len(),
        s@[i as int] == '&',
    ensures
        match r {
            Some((c, n)) => entity_at(s@, i as int) == Some((c, n as int)) && i + n <= s@.len()
                && n >= 2,
            None => entity_at(s@, i as int) is None,
        },
{
    let ghost rest = s@.skip(i + 1);
    let sl = s.len();
    let mut j = i + 1;
    let mut bytes: usize = 0;
    while j < s.len() && s[j] != ';' && bytes <= 10
        invariant
            i + 1 <= j <= s@.len(),
            rest == s@.skip(i + 1),
            forall|m: int| i + 1 <= m < j ==> s@[m] != ';',
            bytes == utf8_len(rest.take(j - i - 1)),
            bytes <= 14,
        decreases s@.len() - j,
    {
        let ghost k = j - i - 1;
        proof {
            assert(rest.take(k + 1).drop_last() =~= rest.take(k));
        }
        bytes = bytes + char_utf8_len_of(s[j]);
        j = j + 1;
    }
    let k = j - i - 1;
    if j < s.len() && s[j] == ';' && bytes <= 10 {
        proof {
            lemma_find_char(rest, ';');
            lemma_span_bounds(rest, CharClass::Not(';'), 0);
            assert forall|m: int| 0 <= m < k implies in_not_semi(rest, m) by {
                assert(rest[m] == s@[i + 1 + m]);
            }
            lemma_first_semi(rest, k as int);
        }
        let name = slice_of(s, i + 1, j);
        assert(name@ =~= rest.take(k as int));
        match entity_char_of(name.as_slice()) {
            Some(c) => Some((c, k + 2)),
            None => None,
        }
    } else {
        proof {
            lemma_find_char(rest, ';');
            match find_char(rest, ';') {
                Some(q) => {
                    // the first `;` lies at or after `j`, past more than 10 bytes
                    assert(rest[k as int] == s@[j as int]);
                    assert(q >= k) by {
                        if q < k {
                            assert(rest[q] == s@[i + 1 + q]);
                        }
                    }
                    lemma_utf8_len_mono(rest, k as int, q);
                },
                None => {},
            }
        }
        None
    }
}

spec fn in_not_semi(s: Seq<char>, m: int) -> bool {
    s[m] != ';'
}

proof fn lemma_first_semi(s: Seq<char>, k: int)
    requires
        0 <= k < s.len(),
        s[k] == ';',
        forall|m: int| 0 <= m < k ==> in_not_semi(s, m),
    ensures
        find_char(s, ';') == Some(k),
{
    lemma_span_upto(s, 0, k);
}

proof fn lemma_span_upto(s: Seq<char>, i: int, k: int)
    requires
        0 <= i <= k < s.len(),
        s[k] == ';',
        forall|m: int| 0 <= m < k ==> in_not_semi(s, m),
    ensures
        span_from(s, CharClass::Not(';'), i) == k,
    decreases k - i,
{
    if i < k {
        assert(in_not_semi(s, i));
        lemma_span_upto(s, i + 1, k);
    }
}

/// Decode the HTML entities emitted by the org/rst HTML writers in a single
/// pass, so that an escaped entity such as `&amp;lt;` decodes to `&lt;`
/// rather than being decoded twice into `<`.
pub fn decode_html_entities(s: &str) -> (r: String)
    ensures
        r@ == decode_from(s@, 0),
{
    let cs = chars_of(s);
    let n = cs.len();
    let mut out = String::new();
    let mut i: usize = 0;
    while i < n
        invariant
            n == cs@.len(),
            cs@ == s@,
            i <= n,
            decode_from(cs@, 0) == out@ + decode_from(cs@, i as int),
        decreases n - i,
    {
        let c = cs[i];
        if c != '&' {
            crate::text::string_push(&mut out, c);
            assert(out@ + decode_from(cs@, i + 1) =~= old_out_plus(out@, decode_from(cs@, i + 1)));
            i = i + 1;
        } else {
            match entity_at_of(cs.as_slice(), i) {
                Some((d, len)) => {
                    let ghost before = out@;
                    crate::text::string_push(&mut out, d);
                    assert(before + decode_from(cs@, i as int) =~= out@ + decode_from(
                        cs@,
                        i + len,
                    ));
                    i = i + len;
                },
                None => {
                    let ghost before = out@;
                    crate::text::string_push(&mut out, '&');
                    assert(before + decode_from(cs@, i as int) =~= out@ + decode_from(
                        cs@,
                        i + 1,
                    ));
                    i = i + 1;
                },
            }
        }
    }
    assert(out@ + decode_from(cs@, i as int) =~= out@);
    out
}

spec fn old_out_plus(a: Seq<char>, b: Seq<char>) -> Seq<char> {
    a + b
}

// ---------------------------------------------------------------------------
// Tags and escaping
// ---------------------------------------------------------------------------
/// The characters outside `<...>` tags, from index `i` on, where `in_tag`
/// says whether a `<` is open.
pub open spec fn untagged_from(s: Seq<char>, i: int, in_tag: bool) -> Seq<char>
    decreases s.len() - i,
{
    if i < 0 || i >= s.len() {
        seq![]
    } else if s[i] == '<' {
        untagged_from(s, i + 1, true)
    } else if s[i] == '>' {
        untagged_from(s, i + 1, false)
    } else if !in_tag {
        seq![s[i]] + untagged_from(s, i + 1, in_tag)
    } else {
        untagged_from(s, i + 1, in_tag)
    }
}

fn strip_tags_chars(s: &[char]) -> (r: Vec<char>)
    ensures
        r@ == untagged_from(s@, 0, false),
{
    let mut out: Vec<char> = Vec::new();
    let mut in_tag = false;
    let mut i: usize = 0;
    while i < s.len()
        invariant
            i <= s@.len(),
            untagged_from(s@, 0, false) == out@ + untagged_from(s@, i as int, in_tag),
        decreases s@.len() - i,
    {
        let c = s[i];
        if c == '<' {
            in_tag = true;
        } else if c == '>' {
            in_tag = false;
        } else if !in_tag {
            let ghost before = out@;
            out.push(c);
            assert(before + untagged_from(s@, i as int, false) =~= out@ + untagged_from(
                s@,
                i + 1,
                false,
            ));
        }
        i = i + 1;
    }
    assert(out@ + untagged_from(s@, i as int, in_tag) =~= out@);
    out
}

/// Removes everything between `<` and `>` (inclusive).
pub fn strip_html_tags(s: &str) -> (r: String)
    ensures
        r@ == untagged_from(s@, 0, false),
{
    let cs = chars_of(s);
    let out = strip_tags_chars(cs.as_slice());
    string_of(out.as_slice())
}

/// What a character becomes in escaped HTML text.
pub open spec fn escape_char(c: char) -> Seq<char> {
    if c == '&' {
        "&amp;"@
    } else if c == '<' {
        "&lt;"@
    } else if c == '>' {
        "&gt;"@
    } else {
        seq![c]
    }
}

/// Escaped HTML text of the first `n` characters: `&`, `<` and `>` replaced
/// by their entities (the replacements of `str::replace` applied for `&`,
/// then `<`, then `>`).
pub open spec fn escaped(s: Seq<char>, n: int) -> Seq<char>
    decreases n,
{
    if n <= 0 || n > s.len() {
        seq![]
    } else {
        escaped(s, n - 1) + escape_char(s[n - 1])
    }
}

fn push_escaped(out: &mut String, s: &[char])
    ensures
        final(out)@ == old(out)@ + escaped(s@, s@.len() as int),
{
    let amp = chars_of("&amp;");
    let lt = chars_of("&lt;");
    let gt = chars_of("&gt;");
    let mut i: usize = 0;
    while i < s.len()
        invariant
            i <= s@.len(),
            amp@ == "&amp;"@,
            lt@ == "&lt;"@,
            gt@ == "&gt;"@,
            out@ == old(out)@ + escaped(s@, i as int),
        decreases s@.len() - i,
    {
        let c = s[i];
        let ghost before = out@;
        if c == '&' {
            push_all(out, amp.as_slice());
        } else if c == '<' {
            push_all(out, lt.as_slice());
        } else if c == '>' {
            push_all(out, gt.as_slice());
        } else {
            crate::text::string_push(out, c);
        }
        assert(out@ =~= old(out)@ + escaped(s@, i + 1));
        i = i + 1;
    }
}

/// `s` with `&`, `<` and `>` replaced by `&amp;`, `&lt;` and `&gt;`.
pub fn html_escape(s: &str) -> (r: String)
    ensures
        r@ == escaped(s@, s@.len() as int),
{
    let cs = chars_of(s);
    let mut out = String::new();
    push_escaped(&mut out, cs.as_slice());
    assert(out@ =~= escaped(s@, s@.len() as int));
    out
}

/// Source shown verbatim: `<pre><code>`, the escaped text, `</code></pre>`.
pub fn html_pre(source: &str) -> (r: String)
    ensures
        r@ == "<pre><code>"@ + escaped(source@, source@.len() as int) + "</code></pre>"@,
{
    let mut out = String::new();
    let open = chars_of("<pre><code>");
    push_all(&mut out, open.as_slice());
    let cs = chars_of(source);
    push_escaped(&mut out, cs.as_slice());
    let close = chars_of("</code></pre>");
    push_all(&mut out, close.as_slice());
    assert(out@ =~= "<pre><code>"@ + escaped(source@, source@.len() as int) + "</code></pre>"@);
    out
}

/// The `<dt>`/`<dd>` items for the first `n` metadata pairs.
pub open spec fn meta_items(meta: Seq<(Seq<char>, Seq<char>)>, n: int) -> Seq<char>
    decreases n,
{
    if n <= 0 || n > meta.len() {
        seq![]
    } else {
        meta_items(meta, n - 1) + "<dt>"@ + escaped(meta[n - 1].0, meta[n - 1].0.len() as int)
            + "</dt><dd>"@ + escaped(meta[n - 1].1, meta[n - 1].1.len() as int) + "</dd>"@
    }
}

/// Metadata key-value pairs as a styled HTML block (nothing for no pairs).
pub open spec fn metadata_html(meta: Seq<(Seq<char>, Seq<char>)>) -> Seq<char> {
    if meta.len() == 0 {
        seq![]
    } else {
        "<div class=\"doc-meta\"><dl>"@ + meta_items(meta, meta.len() as int) + "</dl></div>"@
    }
}

/// Render metadata key-value pairs as a styled HTML block.
pub fn metadata_to_html(meta: &[(String, String)]) -> (r: String)
    ensures
        r@ == metadata_html(pairs_view(meta@)),
{
    let ghost mv = pairs_view(meta@);
    if meta.len() == 0 {
        return String::new();
    }
    let mut html = String::new();
    let open = chars_of("<div class=\"doc-meta\"><dl>");
    push_all(&mut html, open.as_slice());
    let dt = chars_of("<dt>");
    let mid = chars_of("</dt><dd>");
    let dd = chars_of("</dd>");
    let ghost base = html@;
    let mut i: usize = 0;
    while i < meta.len()
        invariant
            i <= meta@.len(),
            mv == pairs_view(meta@),
            dt@ == "<dt>"@,
            mid@ == "</dt><dd>"@,
            dd@ == "</dd>"@,
            html@ == base + meta_items(mv, i as int),
        decreases meta@.len() - i,
    {
        let k = chars_of(meta[i].0.as_str());
        let v = chars_of(meta[i].1.as_str());
        push_all(&mut html, dt.as_slice());
        push_escaped(&mut html, k.as_slice());
        push_all(&mut html, mid.as_slice());
        push_escaped(&mut html, v.as_slice());
        push_all(&mut html, dd.as_slice());
        assert(mv[i as int] == (k@, v@));
        assert(html@ =~= base + meta_items(mv, i + 1));
        i = i + 1;
    }
    let close = chars_of("</dl></div>");
    push_all(&mut html, close.as_slice());
    assert(html@ =~= metadata_html(mv));
    html
}

// ---------------------------------------------------------------------------
// Headings of rendered HTML
// ---------------------------------------------------------------------------
/// A heading found in rendered HTML: level, text and `id` attribute.
#[derive(Debug, Clone)]
pub struct TocEntry {
    pub level: u8,
    pub text: String,
    pub id: String,
}

pub struct TocEntryView {
    pub level: u8,
    pub text: Seq<char>,
    pub id: Seq<char>,
}

pub open spec fn toc_view(v: Seq<TocEntry>) -> Seq<TocEntryView> {
    v.map_values(|e: TocEntry| TocEntryView { level: e.level, text: e.text@, id: e.id@ })
}

/// The value of the first `id="..."` attribute of a tag; empty when there is
/// none or its closing quote is missing.
pub open spec fn tag_id(tag: Seq<char>) -> Seq<char> {
    match find_seq_from(tag, "id=\""@, 0) {
        Some(i) => {
            let start = i + 4;
            match find_char(tag.skip(start), '"') {
                Some(e) => tag.subrange(start, start + e),
                None => seq![],
            }
        },
        None => seq![],
    }
}

/// The closing tag `</hN>` for a level digit.
pub open spec fn close_tag(d: char) -> Seq<char> {
    "</h"@ + seq![d] + ">"@
}

/// Headings from index `pos` on: at each `<h` followed by a digit whose tag
/// closes with `>` and whose matching `</hN>` follows, a heading with the
/// tag's `id` and its text stripped of inner tags and trimmed (skipped when
/// that is empty).
pub open spec fn headings_from(s: Seq<char>, pos: int) -> Seq<TocEntryView>
    decreases s.len() - pos,
{
    if pos < 0 || pos >= s.len() {
        seq![]
    } else {
        match find_seq_from(s, "<h"@, pos) {
            None => seq![],
            Some(abs) => if abs < pos || abs + 2 > s.len() {
                seq![]
            } else {
                let after = abs + 2;
                if after < s.len() && '0' <= s[after] && s[after] <= '9' {
                    let d = s[after];
                    match find_char(s.skip(abs), '>') {
                        Some(te0) => {
                            let te = abs + te0;
                            match find_seq_from(s.skip(te), close_tag(d), 0) {
                                Some(ci) => if ci >= 1 && te0 >= 0 && te + ci <= s.len() {
                                    let text = trim(
                                        untagged_from(s.subrange(te + 1, te + ci), 0, false),
                                    );
                                    let rest = headings_from(s, te + ci);
                                    if all_ws(text) {
                                        rest
                                    } else {
                                        seq![
                                            TocEntryView {
                                                level: (d as u32 - '0' as u32) as u8,
                                                text,
                                                id: tag_id(s.subrange(abs, te)),
                                            },
                                        ] + rest
                                    }
                                } else {
                                    seq![]
                                },
                                None => headings_from(s, abs + 2),
                            }
                        },
                        None => headings_from(s, abs + 2),
                    }
                } else {
                    headings_from(s, abs + 2)
                }
            },
        }
    }
}

fn find_str_from(s: &[char], lit: &[char], from: usize) -> (r: Option<usize>)
    requires
        from <= s@.len(),
    ensures
        match r {
            Some(i) => find_seq_from(s@, lit@, from as int) == Some(i as int) && from <= i
                && i + lit@.len() <= s@.len(),
            None => find_seq_from(s@, lit@, from as int) is None,
        },
{
    let mut i = from;
    while i <= s.len()
        invariant
            from <= i,
            find_seq_from(s@, lit@, from as int) == find_seq_from(s@, lit@, i as int),
        decreases s@.len() + 1 - i,
    {
        if lit.len() > s.len() - i {
            return None;
        }
        proof {
            if lit@.len() == 0 {
                assert(s@.subrange(i as int, i as int) =~= lit@);
            }
        }
        if crate::text::occurs_at_in(s, lit, i) {
            return Some(i);
        }
        i = i + 1;
    }
    None
}

fn tag_id_of(tag: &[char]) -> (r: Vec<char>)
    ensures
        r@ == tag_id(tag@),
{
    let pat = chars_of("id=\"");
    let tl = tag.len();
    proof {
        reveal_strlit("id=\"");
    }
    match find_str_from(tag, pat.as_slice(), 0) {
        Some(i) => {
            let start = i + 4;
            let tail = slice_of(tag, start, tag.len());
            assert(tail@ =~= tag@.skip(start as int));
            match crate::text::find_char_in(tail.as_slice(), '"') {
                Some(e) => {
                    let r = slice_of(tag, start, start + e);
                    r
                },
                None => Vec::new(),
            }
        },
        None => Vec::new(),
    }
}

/// Extract headings from rendered HTML.
/// Returns heading IDs and text for building a table of contents.
pub fn extract_headings(html: &str) -> (r: Vec<TocEntry>)
    ensures
        toc_view(r@) == headings_from(html@, 0),
{
    let s = chars_of(html);
    let n = s.len();
    let open = chars_of("<h");
    let close_prefix = chars_of("</h");
    proof {
        reveal_strlit("<h");
        reveal_strlit("</h");
        reveal_strlit(">");
    }
    let mut entries: Vec<TocEntry> = Vec::new();
    let mut pos: usize = 0;
    while pos < n
        invariant
            n == s@.len(),
            s@ == html@,
            open@ == "<h"@,
            close_prefix@ == "</h"@,
            "<h"@.len() == 2,
            "</h"@.len() == 3,
            ">"@ == seq!['>'],
            pos <= n,
            headings_from(s@, 0) == toc_view(entries@) + headings_from(s@, pos as int),
        decreases n - pos,
    {
        let abs = match find_str_from(s.as_slice(), open.as_slice(), pos) {
            Some(a) => a,
            None => {
                assert(headings_from(s@, pos as int) =~= seq![]);
                pos = n;
                continue;
            },
        };
        let after = abs + 2;
        if after < n && '0' <= s[after] && s[after] <= '9' {
            let d = s[after];
            let from_abs = slice_of(s.as_slice(), abs, n);
            assert(from_abs@ =~= s@.skip(abs as int));
            match crate::text::find_char_in(from_abs.as_slice(), '>') {
                Some(te0) => {
                    let te = abs + te0;
                    let mut ct = slice_of(close_prefix.as_slice(), 0, 3);
                    ct.push(d);
                    ct.push('>');
                    assert(ct@ =~= close_tag(d));
                    let from_te = slice_of(s.as_slice(), te, n);
                    assert(from_te@ =~= s@.skip(te as int));
                    match find_str_from(from_te.as_slice(), ct.as_slice(), 0) {
                        Some(ci) => {
                            if ci < 1 {
                                assert(headings_from(s@, pos as int) =~= seq![]);
                                pos = n;
                                continue;
                            }
                            let inner = slice_of(s.as_slice(), te + 1, te + ci);
                            let stripped = strip_tags_chars(inner.as_slice());
                            let text = trim_of(stripped.as_slice());
                            let ws_end = span(text.as_slice(), CharClass::Whitespace, 0);
                            if ws_end < text.len() {
                                let tag = slice_of(s.as_slice(), abs, te);
                                let id = tag_id_of(tag.as_slice());
                                let level = ((d as u32) - ('0' as u32)) as u8;
                                let ghost before = entries@;
                                entries.push(
                                    TocEntry {
                                        level,
                                        text: string_of(text.as_slice()),
                                        id: string_of(id.as_slice()),
                                    },
                                );
                                assert(toc_view(entries@) =~= toc_view(before) + seq![
                                    TocEntryView { level, text: text@, id: id@ },
                                ]);
                            }
                            pos = te + ci;
                        },
                        None => {
                            pos = abs + 2;
                        },
                    }
                },
                None => {
                    pos = abs + 2;
                },
            }
        } else {
            pos = abs + 2;
        }
    }
    assert(headings_from(s@, pos as int) =~= seq![]);
    assert(toc_view(entries@) + seq![] =~= toc_view(entries@));
    entries
}


// ---------------------------------------------------------------------------
// Laws
// ---------------------------------------------------------------------------
/// Text without `&` decodes to itself.
pub proof fn lemma_decode_without_ampersand(s: Seq<char>, i: int)
    requires
        0 <= i <= s.len(),
        forall|j: int| 0 <= j < s.len() ==> s[j] != '&',
    ensures
        decode_from(s, i) == s.skip(i),
    decreases s.len() - i,
{
    if i < s.len() {
        lemma_decode_without_ampersand(s, i + 1);
        assert(s.skip(i) =~= seq![s[i]] + s.skip(i + 1));
    } else {
        assert(s.skip(i) =~= seq![]);
    }
}

/// Stripping tags leaves no `<` or `>`.
pub proof fn lemma_untagged_has_no_brackets(s: Seq<char>, i: int, in_tag: bool)
    ensures
        forall|j: int|
            0 <= j < untagged_from(s, i, in_tag).len() ==> #[trigger] untagged_from(s, i, in_tag)[j]
                != '<' && untagged_from(s, i, in_tag)[j] != '>',
    decreases s.len() - i,
{
    if 0 <= i < s.len() {
        let u = untagged_from(s, i, in_tag);
        if s[i] == '<' || s[i] == '>' {
            let t = s[i] == '<';
            lemma_untagged_has_no_brackets(s, i + 1, t);
            let rest = untagged_from(s, i + 1, t);
            assert(u == rest);
            assert forall|j: int| 0 <= j < u.len() implies #[trigger] u[j] != '<' && u[j]
                != '>' by {
                assert(u[j] == rest[j]);
            }
        } else {
            lemma_untagged_has_no_brackets(s, i + 1, in_tag);
            let rest = untagged_from(s, i + 1, in_tag);
            if !in_tag {
                assert(u == seq![s[i]] + rest);
                assert forall|j: int| 0 <= j < u.len() implies #[trigger] u[j] != '<' && u[j]
                    != '>' by {
                    if j > 0 {
                        assert(u[j] == rest[j - 1]);
                    } else {
                        assert(u[j] == s[i]);
                    }
                }
            } else {
                assert(u == rest);
                assert forall|j: int| 0 <= j < u.len() implies #[trigger] u[j] != '<' && u[j]
                    != '>' by {
                    assert(u[j] == rest[j]);
                }
            }
        }
    }
}

/// Escaped text holds no `<` or `>`, so it cannot open or close a tag.
pub proof fn lemma_escaped_has_no_brackets(s: Seq<char>, n: int)
    ensures
        forall|j: int|
            0 <= j < escaped(s, n).len() ==> #[trigger] escaped(s, n)[j] != '<' && escaped(s, n)[j]
                != '>',
    decreases n,
{
    reveal_strlit("&amp;");
    reveal_strlit("&lt;");
    reveal_strlit("&gt;");
    if 0 < n <= s.len() {
        lemma_escaped_has_no_brackets(s, n - 1);
        let a = escaped(s, n - 1);
        let b = escape_char(s[n - 1]);
        assert forall|j: int| 0 <= j < escaped(s, n).len() implies #[trigger] escaped(s, n)[j]
            != '<' && escaped(s, n)[j] != '>' by {
            if j < a.len() {
                assert(escaped(s, n)[j] == a[j]);
            } else {
                assert(escaped(s, n)[j] == b[j - a.len()]);
            }
        }
    }
}


/// Decoding from index `i` reads only what follows `i`.
proof fn lemma_decode_shift(s: Seq<char>, i: int)
    requires
        0 <= i <= s.len(),
    ensures
        decode_from(s, i) == decode_from(s.skip(i), 0),
    decreases s.len() - i,
{
    let t = s.skip(i);
    if i < s.len() {
        assert(t[0] == s[i]);
        assert(t.skip(1) =~= s.skip(i + 1));
        if s[i] != '&' {
            lemma_decode_shift(s, i + 1);
            lemma_decode_shift(t, 1);
        } else {
            assert(entity_at(t, 0) == entity_at(s, i));
            match entity_at(s, i) {
                Some((c, n)) => {
                    if n >= 1 {
                        if i + n <= s.len() {
                            lemma_decode_shift(s, i + n);
                            lemma_decode_shift(t, n);
                            assert(t.skip(n) =~= s.skip(i + n));
                        } else {
                            assert(decode_from(s, i + n) == Seq::<char>::empty());
                            assert(decode_from(t, n) == Seq::<char>::empty());
                        }
                    }
                },
                None => {
                    lemma_decode_shift(s, i + 1);
                    lemma_decode_shift(t, 1);
                },
            }
        }
    } else {
        assert(t.len() == 0);
    }
}

proof fn lemma_escaped_front(s: Seq<char>, n: int)
    requires
        1 <= n <= s.len(),
    ensures
        escaped(s, n) == escape_char(s[0]) + escaped(s.skip(1), n - 1),
    decreases n,
{
    if n > 1 {
        lemma_escaped_front(s, n - 1);
        assert(s.skip(1)[n - 2] == s[n - 1]);
        assert(escaped(s, n) =~= escape_char(s[0]) + escaped(s.skip(1), n - 1));
    } else {
        assert(escaped(s, 0) =~= Seq::<char>::empty());
        assert(escaped(s.skip(1), 0) =~= Seq::<char>::empty());
        assert(escaped(s, 1) =~= escape_char(s[0]));
    }
}

/// An entity of `name` followed by `;` at the start of `e` decodes to `c`.
proof fn lemma_entity_front(name: Seq<char>, rest: Seq<char>, c: char)
    requires
        2 <= name.len() <= 4,
        forall|j: int| 0 <= j < name.len() ==> 'a' <= #[trigger] name[j] <= 'z',
        entity_char(name) == Some(c),
    ensures
        entity_at(seq!['&'] + name + seq![';'] + rest, 0) == Some((c, name.len() + 2int)),
{
    let e = seq!['&'] + name + seq![';'] + rest;
    let r = e.skip(1);
    assert(r =~= name + seq![';'] + rest);
    let k = CharClass::Not(';');
    assert(r[name.len() as int] == ';');
    assert(span_from(r, k, name.len() as int) == name.len());
    if name.len() == 4 {
        assert(r[3] == name[3]);
        assert(span_from(r, k, 3) == 4);
    }
    if name.len() >= 3 {
        assert(r[2] == name[2]);
        assert(span_from(r, k, 2) == name.len());
    }
    assert(r[1] == name[1]);
    assert(span_from(r, k, 1) == name.len());
    assert(r[0] == name[0]);
    assert(span_from(r, k, 0) == name.len());
    assert(find_char(r, ';') == Some(name.len() as int));
    assert(r.take(name.len() as int) =~= name);
    let t = name;
    if t.len() == 4 {
        assert(t.drop_last().drop_last().drop_last().drop_last() =~= Seq::<char>::empty());
        assert(utf8_len(t.drop_last().drop_last().drop_last().drop_last()) == 0);
        assert(utf8_len(t.drop_last().drop_last().drop_last()) == 1);
        assert(utf8_len(t.drop_last().drop_last()) == 2);
        assert(utf8_len(t.drop_last()) == 3);
    } else if t.len() == 3 {
        assert(t.drop_last().drop_last().drop_last() =~= Seq::<char>::empty());
        assert(utf8_len(t.drop_last().drop_last().drop_last()) == 0);
        assert(utf8_len(t.drop_last().drop_last()) == 1);
        assert(utf8_len(t.drop_last()) == 2);
    } else {
        assert(t.drop_last().drop_last() =~= Seq::<char>::empty());
        assert(utf8_len(t.drop_last().drop_last()) == 0);
        assert(utf8_len(t.drop_last()) == 1);
    }
    assert(utf8_len(t) == t.len());
}

/// Escaping text for HTML and then decoding its entities gives the text
/// back.
pub proof fn lemma_decode_undoes_escape(s: Seq<char>)
    ensures
        decode_from(escaped(s, s.len() as int), 0) == s,
    decreases s.len(),
{
    reveal_strlit("&amp;");
    reveal_strlit("&lt;");
    reveal_strlit("&gt;");
    reveal_strlit("amp");
    reveal_strlit("lt");
    reveal_strlit("gt");
    if s.len() == 0 {
        assert(escaped(s, 0) =~= Seq::<char>::empty());
    } else {
        let tail = s.skip(1);
        lemma_escaped_front(s, s.len() as int);
        let et = escaped(tail, tail.len() as int);
        lemma_decode_undoes_escape(tail);
        let front = escape_char(s[0]);
        let e = front + et;
        assert(e == escaped(s, s.len() as int));
        lemma_decode_shift(e, front.len() as int);
        assert(e.skip(front.len() as int) =~= et);
        if s[0] == '&' {
            assert(e =~= seq!['&'] + "amp"@ + seq![';'] + et);
            lemma_entity_front("amp"@, et, '&');
        } else if s[0] == '<' {
            assert(e =~= seq!['&'] + "lt"@ + seq![';'] + et);
            lemma_entity_front("lt"@, et, '<');
        } else if s[0] == '>' {
            assert(e =~= seq!['&'] + "gt"@ + seq![';'] + et);
            assert("gt"@[0] != "lt"@[0]);
            assert("gt"@ != "lt"@);
            lemma_entity_front("gt"@, et, '>');
        } else {
            assert(e[0] == s[0]);
        }
        assert(s =~= seq![s[0]] + tail);
    }
}

/// A character escaped for an HTML attribute value: `&`, `<`, `>` and `"`
/// replaced by their entities.
pub open spec fn escape_char_quoted(c: char) -> Seq<char> {
    if c == '"' {
        "&quot;"@
    } else {
        escape_char(c)
    }
}

/// Text escaped character by character with `escape_char_quoted` (the
/// result of replacing `&`, then `<`, `>` and `"`, by their entities).
pub open spec fn escaped_quoted(s: Seq<char>) -> Seq<char>
    decreases s.len(),
{
    if s.len() == 0 {
        seq![]
    } else {
        escape_char_quoted(s[0]) + escaped_quoted(s.skip(1))
    }
}

/// Decoding undoes escaping also when double quotes are escaped: each
/// entity is decoded once, and what a decoded entity gives is never decoded
/// again.
pub proof fn lemma_decode_undoes_quoted_escape(s: Seq<char>)
    ensures
        decode_from(escaped_quoted(s), 0) == s,
    decreases s.len(),
{
    reveal_strlit("&amp;");
    reveal_strlit("&lt;");
    reveal_strlit("&gt;");
    reveal_strlit("&quot;");
    reveal_strlit("amp");
    reveal_strlit("lt");
    reveal_strlit("gt");
    reveal_strlit("quot");
    if s.len() > 0 {
        let tail = s.skip(1);
        let et = escaped_quoted(tail);
        lemma_decode_undoes_quoted_escape(tail);
        let front = escape_char_quoted(s[0]);
        let e = front + et;
        assert(e == escaped_quoted(s));
        lemma_decode_shift(e, front.len() as int);
        assert(e.skip(front.len() as int) =~= et);
        if s[0] == '&' {
            assert(e =~= seq!['&'] + "amp"@ + seq![';'] + et);
            lemma_entity_front("amp"@, et, '&');
        } else if s[0] == '<' {
            assert(e =~= seq!['&'] + "lt"@ + seq![';'] + et);
            lemma_entity_front("lt"@, et, '<');
        } else if s[0] == '>' {
            assert(e =~= seq!['&'] + "gt"@ + seq![';'] + et);
            assert("gt"@[0] != "lt"@[0]);
            assert("gt"@ != "lt"@);
            lemma_entity_front("gt"@, et, '>');
        } else if s[0] == '"' {
            assert(e =~= seq!['&'] + "quot"@ + seq![';'] + et);
            assert("quot"@ != "amp"@);
            assert("quot"@.len() != "lt"@.len());
            assert("quot"@ != "lt"@);
            assert("quot"@ != "gt"@);
            lemma_entity_front("quot"@, et, '"');
        } else {
            assert(e[0] == s[0]);
        }
        assert(s =~= seq![s[0]] + tail);
    }
}

} // verus!
