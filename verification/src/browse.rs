//! Browsing for a file to open: the listing of a directory shown to pick
//! from, and the completions offered for a typed path.
use vstd::prelude::*;

use crate::pathname::{file_name_of, joined, parent_of, path_file_name, path_join, path_parent};
use crate::text::{chars_of, starts_with, starts_with_chars, string_push};

verus! {

// ---------------------------------------------------------------------------
// Ordering text
// ---------------------------------------------------------------------------
/// Whether `a` sorts strictly before `b`: character by character by code
/// point, a proper prefix first (the order of `str`).
pub open spec fn lex_lt(a: Seq<char>, b: Seq<char>) -> bool
    decreases a.len(),
{
    if a.len() == 0 {
        b.len() > 0
    } else if b.len() == 0 {
        false
    } else if a[0] != b[0] {
        (a[0] as u32) < (b[0] as u32)
    } else {
        lex_lt(a.skip(1), b.skip(1))
    }
}

/// Whether `a` sorts strictly before `b`.
pub fn lex_less(a: &[char], b: &[char]) -> (r: bool)
    ensures
        r == lex_lt(a@, b@),
{
    let mut i: usize = 0;
    assert(a@.skip(0) =~= a@);
    assert(b@.skip(0) =~= b@);
    while i < a.len() && i < b.len() && a[i] == b[i]
        invariant
            i <= a@.len(),
            i <= b@.len(),
            lex_lt(a@, b@) == lex_lt(a@.skip(i as int), b@.skip(i as int)),
        decreases a@.len() - i,
    {
        assert(a@.skip(i as int).skip(1) =~= a@.skip(i + 1));
        assert(b@.skip(i as int).skip(1) =~= b@.skip(i + 1));
        i = i + 1;
    }
    if i == a.len() {
        i < b.len()
    } else if i == b.len() {
        false
    } else {
        (a[i] as u32) < (b[i] as u32)
    }
}

// ---------------------------------------------------------------------------
// Directory listings to pick from
// ---------------------------------------------------------------------------
/// An entry offered by the file browser: its display name, its path, and
/// whether choosing it opens it as a directory.
#[derive(Debug)]
pub struct BrowseEntry {
    pub name: String,
    pub path: String,
    pub is_dir: bool,
}

pub struct BrowseView {
    pub name: Seq<char>,
    pub path: Seq<char>,
    pub is_dir: bool,
}

pub open spec fn browse_view(e: BrowseEntry) -> BrowseView {
    BrowseView { name: e.name@, path: e.path@, is_dir: e.is_dir }
}

pub open spec fn browse_views(v: Seq<BrowseEntry>) -> Seq<BrowseView> {
    v.map_values(|e: BrowseEntry| browse_view(e))
}

/// Index of the first entry from `i` on whose name sorts after `key`.
pub open spec fn first_after(s: Seq<BrowseView>, key: Seq<char>, i: int) -> int
    decreases s.len() - i,
{
    if i < 0 || i >= s.len() {
        s.len() as int
    } else if lex_lt(key, s[i].name) {
        i
    } else {
        first_after(s, key, i + 1)
    }
}

/// `s` (already in order) with `x` placed after every entry whose name
/// does not sort after its own.
pub open spec fn insert_by_name(s: Seq<BrowseView>, x: BrowseView) -> Seq<BrowseView> {
    s.insert(first_after(s, x.name, 0), x)
}

/// The entries in order of name, entries with equal names in the order
/// they came in (a stable sort).
pub open spec fn sorted_by_name(s: Seq<BrowseView>) -> Seq<BrowseView>
    decreases s.len(),
{
    if s.len() == 0 {
        s
    } else {
        insert_by_name(sorted_by_name(s.drop_last()), s.last())
    }
}

/// Where an entry named `key` goes in entries already in order: before
/// the first whose name sorts after it.
fn insert_position(v: &[BrowseEntry], key: &[char]) -> (k: usize)
    ensures
        k as int == first_after(browse_views(v@), key@, 0),
        k <= v@.len(),
{
    let ghost sv = browse_views(v@);
    let mut k: usize = 0;
    while k < v.len()
        invariant
            k <= v@.len(),
            sv == browse_views(v@),
            first_after(sv, key@, 0) == first_after(sv, key@, k as int),
        decreases v@.len() - k,
    {
        let other = chars_of(v[k].name.as_str());
        assert(sv[k as int] == browse_view(v@[k as int]));
        if lex_less(key, other.as_slice()) {
            return k;
        }
        k = k + 1;
    }
    k
}

/// The entries sorted by name, stably.
pub fn sort_by_name(v: Vec<BrowseEntry>) -> (r: Vec<BrowseEntry>)
    ensures
        browse_views(r@) == sorted_by_name(browse_views(v@)),
{
    let ghost orig = browse_views(v@);
    let mut rest = v;
    let mut out: Vec<BrowseEntry> = Vec::new();
    let ghost mut taken: int = 0;
    while rest.len() > 0
        invariant
            0 <= taken <= orig.len(),
            browse_views(rest@) == orig.skip(taken),
            browse_views(out@) == sorted_by_name(orig.take(taken)),
        decreases rest@.len(),
    {
        let ghost r0 = rest@;
        let e = rest.remove(0);
        proof {
            assert(browse_views(rest@) =~= browse_views(r0).skip(1));
            assert(orig.skip(taken).skip(1) =~= orig.skip(taken + 1));
            assert(browse_views(r0)[0] == browse_view(r0[0]));
            assert(orig.skip(taken)[0] == orig[taken]);
            assert(browse_view(e) == orig[taken]);
        }
        let ghost sv = browse_views(out@);
        let name = chars_of(e.name.as_str());
        let k = insert_position(out.as_slice(), name.as_slice());
        out.insert(k, e);
        proof {
            assert(orig.take(taken + 1).drop_last() =~= orig.take(taken));
            assert(browse_views(out@) =~= sv.insert(k as int, browse_view(e)));
            taken = taken + 1;
        }
    }
    proof {
        assert(orig.take(taken) =~= orig);
    }
    out
}

/// The entry that opens the directory itself.
pub open spec fn this_dir_name() -> Seq<char> {
    ". (open this directory)"@
}

/// The entries shown for the listing of `dir`: first one that opens `dir`
/// itself; then, when `dir` has a parent, `..` leading there; then the
/// listed directories and then the other entries, each group by name,
/// leaving out names that begin with `.`.
pub open spec fn browse_listing(dir: Seq<char>, items: Seq<BrowseView>) -> Seq<BrowseView> {
    seq![BrowseView { name: this_dir_name(), path: dir, is_dir: false }] + match parent_of(dir) {
        Some(p) => seq![BrowseView { name: ".."@, path: p, is_dir: true }],
        None => seq![],
    } + sorted_by_name(shown_of(items, true)) + sorted_by_name(shown_of(items, false))
}

/// Whether a name is hidden: it begins with `.`.
pub open spec fn hidden_name(name: Seq<char>) -> bool {
    name.len() > 0 && name[0] == '.'
}

/// The entries of `s`, in order, that are not hidden and are directories
/// (`dirs`) or not (`!dirs`).
pub open spec fn shown_of(s: Seq<BrowseView>, dirs: bool) -> Seq<BrowseView>
    decreases s.len(),
{
    if s.len() == 0 {
        seq![]
    } else {
        let r = shown_of(s.drop_last(), dirs);
        let e = s.last();
        if !hidden_name(e.name) && e.is_dir == dirs {
            r.push(e)
        } else {
            r
        }
    }
}

/// List directory contents for the visual file browser: `items` is what
/// reading `dir` gave (name, full path, whether a directory).
pub fn browse_entries(dir: &str, items: Vec<BrowseEntry>) -> (r: Vec<BrowseEntry>)
    ensures
        browse_views(r@) == browse_listing(dir@, browse_views(items@)),
{
    let ghost iv = browse_views(items@);
    let mut entries: Vec<BrowseEntry> = Vec::new();
    let mut this_name = String::new();
    let tn = chars_of(". (open this directory)");
    crate::text::push_all(&mut this_name, tn.as_slice());
    entries.push(BrowseEntry { name: this_name, path: dir.to_owned(), is_dir: false });
    let ghost head = seq![BrowseView { name: this_dir_name(), path: dir@, is_dir: false }];
    assert(browse_views(entries@) =~= head);
    match path_parent(dir) {
        Some(p) => {
            let mut up = String::new();
            let upc = chars_of("..");
            crate::text::push_all(&mut up, upc.as_slice());
            let ghost pv = p@;
            entries.push(BrowseEntry { name: up, path: p, is_dir: true });
            assert(browse_views(entries@) =~= head + seq![BrowseView { name: ".."@, path: pv, is_dir: true }]);
        },
        None => {
            assert(browse_views(entries@) =~= head + seq![]);
        },
    }
    let mut dirs: Vec<BrowseEntry> = Vec::new();
    let mut files: Vec<BrowseEntry> = Vec::new();
    let mut rest = items;
    let ghost mut taken: int = 0;
    while rest.len() > 0
        invariant
            0 <= taken <= iv.len(),
            browse_views(rest@) == iv.skip(taken),
            browse_views(dirs@) == shown_of(iv.take(taken), true),
            browse_views(files@) == shown_of(iv.take(taken), false),
        decreases rest@.len(),
    {
        let ghost r0 = rest@;
        let ghost d0 = dirs@;
        let ghost f0 = files@;
        let e = rest.remove(0);
        proof {
            assert(browse_views(rest@) =~= browse_views(r0).skip(1));
            assert(iv.skip(taken).skip(1) =~= iv.skip(taken + 1));
            assert(browse_views(r0)[0] == browse_view(r0[0]));
            assert(iv.skip(taken)[0] == iv[taken]);
            assert(browse_view(e) == iv[taken]);
            assert(iv.take(taken + 1).drop_last() =~= iv.take(taken));
        }
        let nc = chars_of(e.name.as_str());
        if nc.len() > 0 && nc[0] == '.' {
        } else if e.is_dir {
            dirs.push(e);
            assert(browse_views(dirs@) =~= browse_views(d0).push(iv[taken]));
        } else {
            files.push(e);
            assert(browse_views(files@) =~= browse_views(f0).push(iv[taken]));
        }
        proof {
            taken = taken + 1;
        }
    }
    proof {
        assert(iv.take(taken) =~= iv);
    }
    let mut dirs = sort_by_name(dirs);
    let mut files = sort_by_name(files);
    let ghost e0 = entries@;
    let ghost dv = dirs@;
    let ghost fv = files@;
    entries.append(&mut dirs);
    entries.append(&mut files);
    proof {
        assert(browse_views(entries@) =~= browse_views(e0) + browse_views(dv) + browse_views(fv));
    }
    entries
}


// ---------------------------------------------------------------------------
// Completing a typed path
// ---------------------------------------------------------------------------
/// Whether `shellexpand::tilde` may replace the start of `s`: a leading `~`
/// alone or followed by a separator.
pub open spec fn tilde_expandable(s: Seq<char>) -> bool {
    s.len() > 0 && s[0] == '~' && (s.len() == 1 || s[1] == '/' || s[1] == '\\')
}

/// `shellexpand::tilde`: a leading `~` alone or before a separator is
/// replaced by the home directory when one is known; any other text is
/// returned as it is. Which home directory is not stated.
#[verifier::external_body]
pub(crate) fn expand_tilde(input: &str) -> (r: String)
    ensures
        !tilde_expandable(input@) ==> r@ == input@,
        tilde_expandable(input@) ==> r@ == input@ || exists|h: Seq<char>| r@ == h + input@.skip(1),
{
    shellexpand::tilde(input).into_owned()
}

/// The directory to list and the prefix to match for a typed path: the
/// path itself and no prefix when it names a directory and the text ends
/// with `/`; otherwise its parent (`.` when it has none) and its file name
/// (empty when it has none).
pub open spec fn completion_base(input: Seq<char>, expanded: Seq<char>, is_dir: bool) -> (Seq<char>, Seq<char>) {
    if is_dir && input.len() > 0 && input.last() == '/' {
        (expanded, seq![])
    } else {
        (
            match parent_of(expanded) {
                Some(p) => p,
                None => seq!['.'],
            },
            match file_name_of(expanded) {
                Some(n) => n,
                None => seq![],
            },
        )
    }
}

/// The directory and prefix for a typed path, given the path with `~`
/// expanded and whether that names a directory.
pub fn completion_base_of(input: &str, expanded: &str, is_dir: bool) -> (r: (String, String))
    ensures
        (r.0@, r.1@) == completion_base(input@, expanded@, is_dir),
{
    let ic = chars_of(input);
    if is_dir && ic.len() > 0 && ic[ic.len() - 1] == '/' {
        return (expanded.to_owned(), String::new());
    }
    let dir = match path_parent(expanded) {
        Some(p) => p,
        None => {
            let mut d = String::new();
            string_push(&mut d, '.');
            d
        },
    };
    let prefix = match path_file_name(expanded) {
        Some(n) => n,
        None => String::new(),
    };
    (dir, prefix)
}

/// The directory and prefix for a typed path: `~` is expanded and the file
/// system is asked whether the result is a directory (what the home
/// directory is and what the file system answered are not stated); the
/// rest is `completion_base`.
pub fn completion_target(input: &str) -> (r: (String, String))
    ensures
        exists|expanded: Seq<char>, is_dir: bool|
            (r.0@, r.1@) == completion_base(input@, expanded, is_dir) && (!tilde_expandable(
                input@,
            ) ==> expanded == input@),
{
    let expanded = expand_tilde(input);
    let is_dir = crate::pathname::path_is_dir(expanded.as_str());
    completion_base_of(input, expanded.as_str(), is_dir)
}

/// What an entry of the listed directory offers: nothing when it is hidden
/// and no prefix is typed, or when a prefix is typed and its name does not
/// start with it; otherwise its full path, with `/` after a directory.
pub open spec fn completion_of(dir: Seq<char>, prefix: Seq<char>, name: Seq<char>, is_dir: bool) -> Option<Seq<char>> {
    if hidden_name(name) && prefix.len() == 0 {
        None
    } else if prefix.len() > 0 && !starts_with(name, prefix) {
        None
    } else {
        Some(
            joined(dir, name) + if is_dir {
                seq!['/']
            } else {
                seq![]
            },
        )
    }
}

/// The completions the first entries offer, in listing order.
pub open spec fn completion_list(dir: Seq<char>, prefix: Seq<char>, entries: Seq<(Seq<char>, bool)>) -> Seq<Seq<char>>
    decreases entries.len(),
{
    if entries.len() == 0 {
        seq![]
    } else {
        let r = completion_list(dir, prefix, entries.drop_last());
        match completion_of(dir, prefix, entries.last().0, entries.last().1) {
            Some(c) => r.push(c),
            None => r,
        }
    }
}

/// Index of the first text from `i` on that sorts after `key`.
pub open spec fn first_after_text(s: Seq<Seq<char>>, key: Seq<char>, i: int) -> int
    decreases s.len() - i,
{
    if i < 0 || i >= s.len() {
        s.len() as int
    } else if lex_lt(key, s[i]) {
        i
    } else {
        first_after_text(s, key, i + 1)
    }
}

/// Texts in order (stably, as `sort` does).
pub open spec fn sorted_texts(s: Seq<Seq<char>>) -> Seq<Seq<char>>
    decreases s.len(),
{
    if s.len() == 0 {
        s
    } else {
        let r = sorted_texts(s.drop_last());
        r.insert(first_after_text(r, s.last(), 0), s.last())
    }
}

pub open spec fn texts_view(v: Seq<String>) -> Seq<Seq<char>> {
    v.map_values(|s: String| s@)
}

fn text_position(v: &[String], key: &[char]) -> (k: usize)
    ensures
        k as int == first_after_text(texts_view(v@), key@, 0),
        k <= v@.len(),
{
    let ghost sv = texts_view(v@);
    let mut k: usize = 0;
    while k < v.len()
        invariant
            k <= v@.len(),
            sv == texts_view(v@),
            first_after_text(sv, key@, 0) == first_after_text(sv, key@, k as int),
        decreases v@.len() - k,
    {
        let other = chars_of(v[k].as_str());
        assert(sv[k as int] == v@[k as int]@);
        if lex_less(key, other.as_slice()) {
            return k;
        }
        k = k + 1;
    }
    k
}

/// The texts sorted.
pub fn sort_texts(v: Vec<String>) -> (r: Vec<String>)
    ensures
        texts_view(r@) == sorted_texts(texts_view(v@)),
{
    let ghost orig = texts_view(v@);
    let mut rest = v;
    let mut out: Vec<String> = Vec::new();
    let ghost mut taken: int = 0;
    while rest.len() > 0
        invariant
            0 <= taken <= orig.len(),
            texts_view(rest@) == orig.skip(taken),
            texts_view(out@) == sorted_texts(orig.take(taken)),
        decreases rest@.len(),
    {
        let ghost r0 = rest@;
        let e = rest.remove(0);
        proof {
            assert(texts_view(rest@) =~= texts_view(r0).skip(1));
            assert(orig.skip(taken).skip(1) =~= orig.skip(taken + 1));
            assert(texts_view(r0)[0] == r0[0]@);
            assert(orig.skip(taken)[0] == orig[taken]);
        }
        let ghost sv = texts_view(out@);
        let ec = chars_of(e.as_str());
        let k = text_position(out.as_slice(), ec.as_slice());
        out.insert(k, e);
        proof {
            assert(orig.take(taken + 1).drop_last() =~= orig.take(taken));
            assert(texts_view(out@) =~= sv.insert(k as int, orig[taken]));
            taken = taken + 1;
        }
    }
    proof {
        assert(orig.take(taken) =~= orig);
    }
    out
}

pub open spec fn listing_pairs(v: Seq<(String, bool)>) -> Seq<(Seq<char>, bool)> {
    v.map_values(|p: (String, bool)| (p.0@, p.1))
}

/// Tab completion: the entries of `dir` (name, whether a directory)
/// matching `prefix`, as full paths, sorted.
pub fn completions(dir: &str, prefix: &str, entries: &[(String, bool)]) -> (r: Vec<String>)
    ensures
        texts_view(r@) == sorted_texts(completion_list(dir@, prefix@, listing_pairs(entries@))),
{
    let ghost ev = listing_pairs(entries@);
    let pc = chars_of(prefix);
    let mut found: Vec<String> = Vec::new();
    let mut i: usize = 0;
    while i < entries.len()
        invariant
            i <= entries@.len(),
            ev == listing_pairs(entries@),
            pc@ == prefix@,
            texts_view(found@) == completion_list(dir@, prefix@, ev.take(i as int)),
        decreases entries@.len() - i,
    {
        let name = &entries[i].0;
        let is_dir = entries[i].1;
        let nc = chars_of(name.as_str());
        proof {
            assert(ev.take(i + 1).drop_last() =~= ev.take(i as int));
            assert(ev[i as int] == (name@, is_dir));
        }
        let hidden = nc.len() > 0 && nc[0] == '.';
        assert(hidden == hidden_name(name@));
        let ghost prev = completion_list(dir@, prefix@, ev.take(i as int));
        assert(completion_list(dir@, prefix@, ev.take(i + 1)) == match completion_of(
            dir@,
            prefix@,
            name@,
            is_dir,
        ) {
            Some(c) => prev.push(c),
            None => prev,
        });
        if hidden && pc.len() == 0 {
            assert(completion_of(dir@, prefix@, name@, is_dir) is None);
        } else if pc.len() > 0 && !starts_with_chars(nc.as_slice(), pc.as_slice()) {
            assert(completion_of(dir@, prefix@, name@, is_dir) is None);
        } else {
            let mut full = path_join(dir, name.as_str());
            if is_dir {
                string_push(&mut full, '/');
            } else {
                assert(full@ =~= full@ + seq![]);
            }
            assert(completion_of(dir@, prefix@, name@, is_dir) == Some(full@));
            let ghost before = found@;
            found.push(full);
            assert(texts_view(found@) =~= texts_view(before).push(full@));
        }
        i = i + 1;
    }
    proof {
        assert(ev.take(i as int) =~= ev);
    }
    sort_texts(found)
}


// ---------------------------------------------------------------------------
// Sorting puts things in order and keeps them all
// ---------------------------------------------------------------------------
proof fn lemma_lex_trans(a: Seq<char>, b: Seq<char>, c: Seq<char>)
    requires
        lex_lt(a, b),
        lex_lt(b, c),
    ensures
        lex_lt(a, c),
    decreases a.len(),
{
    if a.len() > 0 && a[0] == b[0] && b[0] == c[0] {
        lemma_lex_trans(a.skip(1), b.skip(1), c.skip(1));
    }
}

proof fn lemma_lex_irreflexive(a: Seq<char>)
    ensures
        !lex_lt(a, a),
    decreases a.len(),
{
    if a.len() > 0 {
        lemma_lex_irreflexive(a.skip(1));
    }
}

/// Whether texts are in order: no later one sorts before an earlier one.
pub open spec fn texts_in_order(s: Seq<Seq<char>>) -> bool {
    forall|i: int, j: int| 0 <= i < j < s.len() ==> !lex_lt(#[trigger] s[j], #[trigger] s[i])
}

proof fn lemma_first_after_text_props(s: Seq<Seq<char>>, key: Seq<char>, i: int)
    requires
        0 <= i <= s.len(),
    ensures
        i <= first_after_text(s, key, i) <= s.len(),
        forall|j: int| i <= j < first_after_text(s, key, i) ==> !lex_lt(key, #[trigger] s[j]),
        first_after_text(s, key, i) < s.len() ==> lex_lt(key, s[first_after_text(s, key, i)]),
    decreases s.len() - i,
{
    if i < s.len() && !lex_lt(key, s[i]) {
        lemma_first_after_text_props(s, key, i + 1);
    }
}

/// Sorting texts puts them in order and keeps every one of them.
pub proof fn lemma_sorted_texts(s: Seq<Seq<char>>)
    ensures
        texts_in_order(sorted_texts(s)),
        sorted_texts(s).to_multiset() == s.to_multiset(),
    decreases s.len(),
{
    broadcast use vstd::seq_lib::to_multiset_insert, vstd::seq_lib::to_multiset_build;

    if s.len() == 0 {
    } else {
        let r = sorted_texts(s.drop_last());
        let x = s.last();
        lemma_sorted_texts(s.drop_last());
        lemma_first_after_text_props(r, x, 0);
        let k = first_after_text(r, x, 0);
        let t = r.insert(k, x);
        assert(t == sorted_texts(s));
        assert forall|i: int, j: int| 0 <= i < j < t.len() implies !lex_lt(
            #[trigger] t[j],
            #[trigger] t[i],
        ) by {
            if j < k {
                assert(t[i] == r[i] && t[j] == r[j]);
            } else if j == k {
                assert(t[i] == r[i] && t[j] == x);
            } else if i < k {
                assert(t[i] == r[i] && t[j] == r[j - 1]);
                if lex_lt(r[j - 1], r[i]) {
                    if j - 1 == i {
                        lemma_lex_irreflexive(r[i]);
                    }
                }
            } else if i == k {
                assert(t[i] == x && t[j] == r[j - 1]);
                if lex_lt(r[j - 1], x) {
                    if j - 1 > k {
                        lemma_lex_trans(r[j - 1], x, r[k]);
                    } else {
                        lemma_lex_trans(x, r[k], x);
                        lemma_lex_irreflexive(x);
                    }
                }
            } else {
                assert(t[i] == r[i - 1] && t[j] == r[j - 1]);
            }
        }
        assert(s.drop_last().push(x) =~= s);
    }
}

/// Whether entries are in order of name.
pub open spec fn names_in_order(s: Seq<BrowseView>) -> bool {
    forall|i: int, j: int|
        0 <= i < j < s.len() ==> !lex_lt((#[trigger] s[j]).name, (#[trigger] s[i]).name)
}

proof fn lemma_first_after_props(s: Seq<BrowseView>, key: Seq<char>, i: int)
    requires
        0 <= i <= s.len(),
    ensures
        i <= first_after(s, key, i) <= s.len(),
        forall|j: int| i <= j < first_after(s, key, i) ==> !lex_lt(key, (#[trigger] s[j]).name),
        first_after(s, key, i) < s.len() ==> lex_lt(key, s[first_after(s, key, i)].name),
    decreases s.len() - i,
{
    if i < s.len() && !lex_lt(key, s[i].name) {
        lemma_first_after_props(s, key, i + 1);
    }
}

/// Sorting entries by name puts them in order of name and keeps every one
/// of them.
pub proof fn lemma_sorted_by_name(s: Seq<BrowseView>)
    ensures
        names_in_order(sorted_by_name(s)),
        sorted_by_name(s).to_multiset() == s.to_multiset(),
    decreases s.len(),
{
    broadcast use vstd::seq_lib::to_multiset_insert, vstd::seq_lib::to_multiset_build;

    if s.len() == 0 {
    } else {
        let r = sorted_by_name(s.drop_last());
        let x = s.last();
        lemma_sorted_by_name(s.drop_last());
        lemma_first_after_props(r, x.name, 0);
        let k = first_after(r, x.name, 0);
        let t = r.insert(k, x);
        assert(t == sorted_by_name(s));
        assert forall|i: int, j: int| 0 <= i < j < t.len() implies !lex_lt(
            (#[trigger] t[j]).name,
            (#[trigger] t[i]).name,
        ) by {
            if j < k {
                assert(t[i] == r[i] && t[j] == r[j]);
            } else if j == k {
                assert(t[i] == r[i] && t[j] == x);
            } else if i < k {
                assert(t[i] == r[i] && t[j] == r[j - 1]);
                if lex_lt(r[j - 1].name, r[i].name) {
                    if j - 1 == i {
                        lemma_lex_irreflexive(r[i].name);
                    }
                }
            } else if i == k {
                assert(t[i] == x && t[j] == r[j - 1]);
                if lex_lt(r[j - 1].name, x.name) {
                    if j - 1 > k {
                        lemma_lex_trans(r[j - 1].name, x.name, r[k].name);
                    } else {
                        lemma_lex_trans(x.name, r[k].name, x.name);
                        lemma_lex_irreflexive(x.name);
                    }
                }
            } else {
                assert(t[i] == r[i - 1] && t[j] == r[j - 1]);
            }
        }
        assert(s.drop_last().push(x) =~= s);
    }
}

} // verus!
