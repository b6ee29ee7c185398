//! Reading the file tree from disk: directory listings are merged into the
//! tree so that directories that still exist keep their node, and with it
//! their expansion state and already-loaded subtrees.
use vstd::prelude::*;

use crate::pathname::{
    file_name_of, joined, path_extension, path_extension_of, path_file_name, path_has_prefix,
    path_is_dir, path_is_file, path_join, path_starts_with, paths_equal, same_path,
};
use crate::browse::lex_lt;
use crate::text::{chars_of, eq_str};
use crate::tree::{
    height, heights_max, lemma_heights_max, visible, visible_all, lemma_nodes_view, lemma_nodes_view_ext, node_view, nodes_view,
    view_children, view_is_dir,
    view_is_expanded, view_with_children, view_with_expanded, KindView, NodeKind, NodeView,
    TreeNode,
};

verus! {

/// One entry of a directory listing: its path and whether it is a directory.
#[derive(Debug)]
pub struct ListedEntry {
    pub path: String,
    pub is_dir: bool,
}

pub open spec fn listing_view(l: Seq<ListedEntry>) -> Seq<(Seq<char>, bool)> {
    l.map_values(|e: ListedEntry| (e.path@, e.is_dir))
}

/// The display name of a listed path: its file name, or nothing.
pub open spec fn entry_name(p: Seq<char>) -> Seq<char> {
    match file_name_of(p) {
        Some(n) => n,
        None => seq![],
    }
}

pub open spec fn new_dir_view(p: Seq<char>) -> NodeView {
    NodeView { name: entry_name(p), path: p, kind: KindView::Dir(seq![], false) }
}

pub open spec fn new_file_view(p: Seq<char>) -> NodeView {
    NodeView { name: entry_name(p), path: p, kind: KindView::File }
}

/// The directories among `cs`, in order.
pub open spec fn dirs_of(cs: Seq<NodeView>) -> Seq<NodeView>
    decreases cs.len(),
{
    if cs.len() == 0 {
        seq![]
    } else {
        let d = dirs_of(cs.drop_last());
        if view_is_dir(cs.last()) {
            d.push(cs.last())
        } else {
            d
        }
    }
}

/// Whether no later directory of `ds` has the same path as `ds[j]` (a map
/// keyed by path keeps the last node inserted for a path).
pub open spec fn is_live(ds: Seq<NodeView>, j: int) -> bool {
    forall|k: int| j < k < ds.len() ==> !same_path(#[trigger] ds[k].path, ds[j].path)
}

/// The previous directory node to reuse for path `p`: the first live one,
/// not yet reused, whose path is `p`.
pub open spec fn pick(ds: Seq<NodeView>, used: Set<int>, p: Seq<char>, j: int) -> Option<int>
    decreases ds.len() - j,
{
    if j < 0 || j >= ds.len() {
        None
    } else if is_live(ds, j) && !used.contains(j) && same_path(ds[j].path, p) {
        Some(j)
    } else {
        pick(ds, used, p, j + 1)
    }
}

/// Children built from the listing from entry `i` on: each directory entry
/// takes a previous directory node with its path when one is left, or else
/// a new collapsed, empty directory; each other entry becomes a file; the
/// directories come first, then the files, both in listing order.
pub open spec fn merge_from(
    ds: Seq<NodeView>,
    l: Seq<(Seq<char>, bool)>,
    i: int,
    used: Set<int>,
    dirs: Seq<NodeView>,
    files: Seq<NodeView>,
) -> Seq<NodeView>
    decreases l.len() - i,
{
    if i < 0 || i >= l.len() {
        dirs + files
    } else if l[i].1 {
        match pick(ds, used, l[i].0, 0) {
            Some(j) => merge_from(ds, l, i + 1, used.insert(j), dirs.push(ds[j]), files),
            None => merge_from(ds, l, i + 1, used, dirs.push(new_dir_view(l[i].0)), files),
        }
    } else {
        merge_from(ds, l, i + 1, used, dirs, files.push(new_file_view(l[i].0)))
    }
}

/// New children for a directory whose previous children were `old`, from a
/// fresh listing.
pub open spec fn merged(old: Seq<NodeView>, l: Seq<(Seq<char>, bool)>) -> Seq<NodeView> {
    merge_from(dirs_of(old), l, 0, Set::empty(), seq![], seq![])
}

/// A directory re-read with the given listing (anything else unchanged).
pub open spec fn repopulated(v: NodeView, l: Seq<(Seq<char>, bool)>) -> NodeView {
    view_with_children(v, merged(view_children(v), l))
}

pub proof fn lemma_pick(ds: Seq<NodeView>, used: Set<int>, p: Seq<char>, j: int)
    requires
        0 <= j,
    ensures
        pick(ds, used, p, j) matches Some(f) ==> j <= f < ds.len() && is_live(ds, f)
            && !used.contains(f) && same_path(ds[f].path, p),
    decreases ds.len() - j,
{
    if j < ds.len() && !(is_live(ds, j) && !used.contains(j) && same_path(ds[j].path, p)) {
        lemma_pick(ds, used, p, j + 1);
    }
}

fn entry_name_of(p: &str) -> (r: String)
    ensures
        r@ == entry_name(p@),
{
    match path_file_name(p) {
        Some(n) => n,
        None => String::new(),
    }
}

/// Merge a fresh listing of a directory into its previous children: child
/// directories that still exist keep their previous node, so their
/// expansion state and already-loaded subtrees survive a refresh.
pub fn merge_listing(previous: Vec<TreeNode>, listing: &[ListedEntry]) -> (r: Vec<TreeNode>)
    ensures
        nodes_view(r@) == merged(nodes_view(previous@), listing_view(listing@)),
{
    let ghost pv = nodes_view(previous@);
    proof {
        lemma_nodes_view(previous@);
    }
    // The previous directories, in order.
    let mut nodes: Vec<Option<TreeNode>> = Vec::new();
    let mut paths: Vec<String> = Vec::new();
    let mut k: usize = 0;
    let mut prev = previous;
    let total = prev.len();
    let ghost pseq = prev@;
    let mut rest: Vec<TreeNode> = Vec::new();
    // Take the nodes out in reverse, then walk them in order.
    while prev.len() > 0
        invariant
            prev@.len() + rest@.len() == pseq.len(),
            forall|j: int| 0 <= j < prev@.len() ==> #[trigger] prev@[j] == pseq[j],
            forall|j: int|
                0 <= j < rest@.len() ==> #[trigger] rest@[j] == pseq[pseq.len() - 1 - j],
        decreases prev@.len(),
    {
        let c = prev.pop().unwrap();
        rest.push(c);
    }
    let ghost rseq = rest@;
    let mut taken: usize = 0;
    while rest.len() > 0
        invariant
            total == pseq.len(),
            rseq.len() == pseq.len(),
            rest@.len() + taken == pseq.len(),
            forall|j: int| 0 <= j < rest@.len() ==> #[trigger] rest@[j] == rseq[j],
            forall|j: int|
                0 <= j < rseq.len() ==> #[trigger] rseq[j] == pseq[pseq.len() - 1 - j],
            pv == nodes_view(pseq),
            pv.len() == pseq.len(),
            forall|j: int| 0 <= j < pseq.len() ==> #[trigger] pv[j] == node_view(pseq[j]),
            nodes@.len() == paths@.len(),
            nodes@.len() == dirs_of(pv.take(taken as int)).len(),
            forall|j: int|
                0 <= j < nodes@.len() ==> (#[trigger] nodes@[j]) is Some && node_view(
                    nodes@[j]->0,
                ) == dirs_of(pv.take(taken as int))[j] && paths@[j]@ == dirs_of(
                    pv.take(taken as int),
                )[j].path,
        decreases rest@.len(),
    {
        let ghost r0 = rest@;
        let c = rest.pop().unwrap();
        proof {
            assert(c == r0[r0.len() - 1]);
            assert(r0[r0.len() - 1] == rseq[r0.len() - 1]);
            assert(c == pseq[taken as int]);
            assert(pv.take(taken + 1).drop_last() =~= pv.take(taken as int));
            assert(pv.take(taken + 1).last() == node_view(c));
        }
        if c.is_dir() {
            paths.push(c.path.clone());
            nodes.push(Some(c));
        }
        taken = taken + 1;
    }
    assert(pv.take(taken as int) =~= pv);
    let ghost ds = dirs_of(pv);
    assert forall|m: int| 0 <= m < paths@.len() implies (#[trigger] paths@[m])@ == ds[m].path by {
        assert(nodes@[m] is Some);
    }
    assert forall|m: int| 0 <= m < nodes@.len() implies (#[trigger] nodes@[m]) is Some && node_view(
        nodes@[m]->0,
    ) == ds[m] by {
        assert(nodes@[m] is Some);
    }
    // Which previous directories are the last with their path.
    let mut live: Vec<bool> = Vec::new();
    let mut j: usize = 0;
    while j < paths.len()
        invariant
            j <= paths@.len(),
            live@.len() == j,
            ds.len() == paths@.len(),
            forall|m: int| 0 <= m < paths@.len() ==> (#[trigger] paths@[m])@ == ds[m].path,
            forall|m: int| 0 <= m < j ==> #[trigger] live@[m] == is_live(ds, m),
        decreases paths@.len() - j,
    {
        let mut is_last = true;
        let mut q = j + 1;
        while q < paths.len()
            invariant
                j < q <= paths@.len(),
                ds.len() == paths@.len(),
                forall|m: int| 0 <= m < paths@.len() ==> (#[trigger] paths@[m])@ == ds[m].path,
                is_last == forall|m: int|
                    j < m < q ==> !same_path(#[trigger] ds[m].path, ds[j as int].path),
            decreases paths@.len() - q,
        {
            if paths_equal(paths[q].as_str(), paths[j].as_str()) {
                is_last = false;
            }
            q = q + 1;
        }
        live.push(is_last);
        j = j + 1;
    }
    // Walk the listing.
    let ghost lv = listing_view(listing@);
    let ghost mut used: Set<int> = Set::empty();
    let mut dirs: Vec<TreeNode> = Vec::new();
    let mut files: Vec<TreeNode> = Vec::new();
    proof {
        lemma_nodes_view(dirs@);
        lemma_nodes_view(files@);
    }
    let mut i: usize = 0;
    while i < listing.len()
        invariant
            i <= listing@.len(),
            lv == listing_view(listing@),
            lv.len() == listing@.len(),
            ds.len() == paths@.len(),
            nodes@.len() == ds.len(),
            live@.len() == ds.len(),
            forall|m: int| 0 <= m < paths@.len() ==> (#[trigger] paths@[m])@ == ds[m].path,
            forall|m: int| 0 <= m < ds.len() ==> #[trigger] live@[m] == is_live(ds, m),
            forall|m: int|
                0 <= m < ds.len() ==> ((#[trigger] nodes@[m]) is Some <==> !used.contains(m)),
            forall|m: int|
                0 <= m < ds.len() && nodes@[m] is Some ==> node_view(#[trigger] nodes@[m]->0)
                    == ds[m],
            merge_from(ds, lv, 0, Set::empty(), seq![], seq![]) == merge_from(
                ds,
                lv,
                i as int,
                used,
                nodes_view(dirs@),
                nodes_view(files@),
            ),
        decreases listing@.len() - i,
    {
        let e = &listing[i];
        assert(lv[i as int] == (e.path@, e.is_dir));
        if e.is_dir {
            // look for a previous node with this path
            let mut q: usize = 0;
            let mut found: Option<usize> = None;
            while q < nodes.len()
                invariant
                    q <= nodes@.len(),
                    nodes@.len() == ds.len(),
                    live@.len() == ds.len(),
                    ds.len() == paths@.len(),
                    forall|m: int| 0 <= m < paths@.len() ==> (#[trigger] paths@[m])@ == ds[m].path,
                    forall|m: int| 0 <= m < ds.len() ==> #[trigger] live@[m] == is_live(ds, m),
                    forall|m: int|
                        0 <= m < ds.len() ==> ((#[trigger] nodes@[m]) is Some <==> !used.contains(
                            m,
                        )),
                    found is None ==> pick(ds, used, e.path@, 0) == pick(ds, used, e.path@, q as int),
                    found matches Some(f) ==> pick(ds, used, e.path@, 0) == Some(f as int) && f
                        < nodes@.len(),
                decreases nodes@.len() - q,
            {
                if found.is_none() && live[q] && nodes[q].is_some() && paths_equal(
                    paths[q].as_str(),
                    e.path.as_str(),
                ) {
                    found = Some(q);
                }
                q = q + 1;
            }
            match found {
                Some(f) => {
                    proof {
                        lemma_pick(ds, used, e.path@, 0);
                    }
                    let ghost before = dirs@;
                    let node = nodes[f].take().unwrap();
                    dirs.push(node);
                    proof {
                        lemma_nodes_view(before);
                        lemma_nodes_view(dirs@);
                        assert(nodes_view(dirs@) =~= nodes_view(before).push(ds[f as int]));
                        used = used.insert(f as int);
                    }
                },
                None => {
                    let ghost before = dirs@;
                    let name = entry_name_of(e.path.as_str());
                    let empty: Vec<TreeNode> = Vec::new();
                    proof {
                        lemma_nodes_view(empty@);
                        assert(nodes_view(empty@) =~= seq![]);
                    }
                    let node = TreeNode::directory(name, e.path.clone(), empty);
                    dirs.push(node);
                    proof {
                        lemma_nodes_view(before);
                        lemma_nodes_view(dirs@);
                        assert(nodes_view(dirs@) =~= nodes_view(before).push(
                            new_dir_view(e.path@),
                        ));
                    }
                },
            }
        } else {
            let ghost before = files@;
            let name = entry_name_of(e.path.as_str());
            let node = TreeNode::file(name, e.path.clone());
            files.push(node);
            proof {
                lemma_nodes_view(before);
                lemma_nodes_view(files@);
                assert(nodes_view(files@) =~= nodes_view(before).push(new_file_view(e.path@)));
            }
        }
        i = i + 1;
    }
    let ghost dv = nodes_view(dirs@);
    let ghost fv = nodes_view(files@);
    proof {
        lemma_nodes_view(dirs@);
        lemma_nodes_view(files@);
    }
    let ghost d0 = dirs@;
    let ghost f0 = files@;
    dirs.append(&mut files);
    proof {
        lemma_nodes_view(dirs@);
        assert(nodes_view(dirs@) =~= dv + fv);
    }
    dirs
}

// ---------------------------------------------------------------------------
// Reading directories
// ---------------------------------------------------------------------------
/// What the directory walker reports for one entry: its path, its depth
/// below the walked directory, and, when known, whether it is a symbolic
/// link and whether it is a directory.
pub struct WalkEntry {
    pub path: String,
    pub depth: usize,
    pub file_type: Option<(bool, bool)>,
}

/// Whether `p` names an entry of the directory `dir`: `dir` joined with a
/// name.
pub open spec fn in_dir(dir: Seq<char>, p: Seq<char>) -> bool {
    exists|n: Seq<char>| p == #[trigger] joined(dir, n)
}

/// Whether a text holds no U+FFFD, the character a lossy conversion puts in
/// place of bytes that are not UTF-8.
pub open spec fn plain_text(t: Seq<char>) -> bool {
    forall|i: int| 0 <= i < t.len() ==> t[i] != '\u{FFFD}'
}

/// Whether the entry at path `p` may come before the one at `q` when
/// entries are sorted by file name: the names' bytes in order, which for
/// text is the order of characters (`lex_lt`). A name that was not UTF-8
/// (and so holds U+FFFD as text) is left out of the claim.
pub open spec fn names_in_order(p: Seq<char>, q: Seq<char>) -> bool {
    match (file_name_of(p), file_name_of(q)) {
        (Some(a), Some(b)) => plain_text(a) && plain_text(b) ==> !lex_lt(b, a),
        _ => true,
    }
}

/// A directory listing as read: whether the walker was asked to leave out
/// hidden and Git-ignored entries, and the entries (path, whether a
/// directory) in the order read.
pub struct Listing {
    pub hide: bool,
    pub entries: Seq<(Seq<char>, bool)>,
}

/// Entries as read from a directory: every one lies in it, in order of file
/// name.
pub open spec fn entries_ok(dir: Seq<char>, l: Seq<(Seq<char>, bool)>) -> bool {
    &&& forall|j: int| 0 <= j < l.len() ==> in_dir(dir, #[trigger] l[j].0)
    &&& forall|i: int, j: int|
        0 <= i < j < l.len() ==> names_in_order(#[trigger] l[i].0, #[trigger] l[j].0)
}

/// A listing as read from a directory for a tree that shows hidden (and
/// Git-ignored) entries or not: the walker was asked to leave them out
/// exactly when they are not shown, and the entries are as read (see
/// `entries_ok`).
pub open spec fn listing_ok(dir: Seq<char>, show_hidden: bool, l: Listing) -> bool {
    &&& l.hide == !show_hidden
    &&& entries_ok(dir, l.entries)
}

/// `ignore::WalkBuilder` over the immediate entries of `dir` (depth at most
/// 1), sorted by file name, leaving out hidden entries and entries Git
/// ignores (`.gitignore`, `.git/info/exclude`, the global excludes) when
/// `hide` is set; entries the walker reports as errors are left out. Which
/// entries there are depends on the disk, and is not stated; what is stated
/// is how the walker (through `walkdir`) reports them: the directory itself
/// at depth 0 under the path it was given (the walker takes the path `-`
/// for standard input, reported otherwise), and each entry it reads at depth
/// 1 under the path `read_dir` gives it, the directory joined with the
/// entry's name, these sorted by file name (`OsStr` order, byte by byte).
/// What the hidden and ignore filters leave out is not stated: an ignore
/// file can let a hidden entry through, and with `hide` false the `.ignore`
/// files still apply. The entries come paired with the `hide` setting the
/// walker was built with, so that a listing carries the filter it was read
/// with.
#[verifier::external_body]
fn walk_directory(dir: &str, hide: bool) -> (r: (Vec<WalkEntry>, bool))
    ensures
        r.1 == hide,
        forall|i: int|
            0 <= i < r.0@.len() ==> {
                &&& #[trigger] r.0@[i].depth <= 1
                &&& r.0@[i].depth == 0 && dir@ != "-"@ ==> r.0@[i].path@ == dir@
                &&& r.0@[i].depth == 1 ==> in_dir(dir@, r.0@[i].path@)
            },
        forall|i: int, j: int|
            0 <= i < j < r.0@.len() && r.0@[i].depth == 1 && r.0@[j].depth == 1 ==> names_in_order(
                #[trigger] r.0@[i].path@,
                #[trigger] r.0@[j].path@,
            ),
{
    let mut out = Vec::new();
    let mut builder = ignore::WalkBuilder::new(dir);
    builder.max_depth(Some(1)).hidden(hide).git_ignore(hide).git_exclude(hide).git_global(hide);
    builder.sort_by_file_name(Ord::cmp);
    for e in builder.build().flatten() {
        let file_type = match e.file_type() {
            Some(t) => Some((t.is_symlink(), t.is_dir())),
            None => None,
        };
        out.push(WalkEntry { path: e.path().to_string_lossy().into_owned(), depth: e.depth(), file_type });
    }
    (out, hide)
}

/// The listing a walk gives: the walked directory itself (depth 0) is left
/// out; an entry whose type the walker knows and that is not a symbolic link
/// is a directory exactly when the walker says so. (Symbolic links and
/// entries of unknown type are asked of the file system.)
pub open spec fn listed_from(w: Seq<WalkEntry>, l: Seq<(Seq<char>, bool)>) -> bool
    decreases w.len(),
{
    if w.len() == 0 {
        l.len() == 0
    } else if w.last().depth == 0 {
        listed_from(w.drop_last(), l)
    } else {
        &&& l.len() > 0
        &&& l.last().0 == w.last().path@
        &&& (w.last().file_type matches Some((false, d)) ==> l.last().1 == d)
        &&& listed_from(w.drop_last(), l.drop_last())
    }
}

/// Turns what the walker reported into a listing.
pub fn listing_from_walk(walk: Vec<WalkEntry>) -> (r: Vec<ListedEntry>)
    ensures
        listed_from(walk@, listing_view(r@)),
{
    let ghost w = walk@;
    let mut out: Vec<ListedEntry> = Vec::new();
    let mut i: usize = 0;
    while i < walk.len()
        invariant
            w == walk@,
            i <= w.len(),
            listed_from(w.take(i as int), listing_view(out@)),
        decreases w.len() - i,
    {
        let e = &walk[i];
        proof {
            assert(w.take(i + 1).drop_last() =~= w.take(i as int));
            assert(w.take(i + 1).last() == w[i as int]);
        }
        if e.depth != 0 {
            let is_dir = match e.file_type {
                Some((false, d)) => d,
                _ => path_is_dir(e.path.as_str()),
            };
            let ghost before = out@;
            out.push(ListedEntry { path: e.path.clone(), is_dir });
            assert(listing_view(out@).drop_last() =~= listing_view(before));
        }
        i = i + 1;
    }
    assert(w.take(i as int) =~= w);
    out
}

/// Every entry a listing has, when it came from a walk whose entries below
/// the top lie in `dir`, lies in `dir`.
proof fn lemma_listed_in_dir(w: Seq<WalkEntry>, l: Seq<(Seq<char>, bool)>, dir: Seq<char>)
    requires
        listed_from(w, l),
        forall|i: int| 0 <= i < w.len() && #[trigger] w[i].depth != 0 ==> in_dir(dir, w[i].path@),
    ensures
        forall|j: int| 0 <= j < l.len() ==> in_dir(dir, #[trigger] l[j].0),
    decreases w.len(),
{
    if w.len() == 0 {
    } else if w.last().depth == 0 {
        assert forall|i: int| 0 <= i < w.drop_last().len() && #[trigger] w.drop_last()[i].depth != 0
            implies in_dir(dir, w.drop_last()[i].path@) by {
            assert(w.drop_last()[i] == w[i]);
        }
        lemma_listed_in_dir(w.drop_last(), l, dir);
    } else {
        assert forall|i: int| 0 <= i < w.drop_last().len() && #[trigger] w.drop_last()[i].depth != 0
            implies in_dir(dir, w.drop_last()[i].path@) by {
            assert(w.drop_last()[i] == w[i]);
        }
        lemma_listed_in_dir(w.drop_last(), l.drop_last(), dir);
        assert forall|j: int| 0 <= j < l.len() implies in_dir(dir, #[trigger] l[j].0) by {
            if j < l.len() - 1 {
                assert(l.drop_last()[j] == l[j]);
            } else {
                assert(w[w.len() - 1].depth != 0);
            }
        }
    }
}

/// Every entry of a listing made from a walk is the path of a walk entry
/// below the top.
proof fn lemma_listed_entry(w: Seq<WalkEntry>, l: Seq<(Seq<char>, bool)>, j: int)
    requires
        listed_from(w, l),
        0 <= j < l.len(),
    ensures
        exists|i: int| 0 <= i < w.len() && w[i].depth != 0 && #[trigger] w[i].path@ == l[j].0,
    decreases w.len(),
{
    if w.len() == 0 {
    } else if w.last().depth == 0 {
        lemma_listed_entry(w.drop_last(), l, j);
        let i = choose|i: int| 0 <= i < w.drop_last().len() && w.drop_last()[i].depth != 0
            && #[trigger] w.drop_last()[i].path@ == l[j].0;
        assert(w[i] == w.drop_last()[i]);
    } else if j == l.len() - 1 {
        assert(w[w.len() - 1].path@ == l[j].0);
    } else {
        lemma_listed_entry(w.drop_last(), l.drop_last(), j);
        let i = choose|i: int| 0 <= i < w.drop_last().len() && w.drop_last()[i].depth != 0
            && #[trigger] w.drop_last()[i].path@ == l.drop_last()[j].0;
        assert(w[i] == w.drop_last()[i]);
        assert(l.drop_last()[j] == l[j]);
    }
}

/// A listing made from a walk whose entries below the top come in order of
/// name comes in the same order.
proof fn lemma_listed_in_order(w: Seq<WalkEntry>, l: Seq<(Seq<char>, bool)>)
    requires
        listed_from(w, l),
        forall|i: int| 0 <= i < w.len() ==> #[trigger] w[i].depth <= 1,
        forall|i: int, j: int|
            0 <= i < j < w.len() && w[i].depth == 1 && w[j].depth == 1 ==> names_in_order(
                #[trigger] w[i].path@,
                #[trigger] w[j].path@,
            ),
    ensures
        forall|i: int, j: int|
            0 <= i < j < l.len() ==> names_in_order(#[trigger] l[i].0, #[trigger] l[j].0),
    decreases w.len(),
{
    if w.len() == 0 {
    } else {
        let w2 = w.drop_last();
        assert forall|i: int| 0 <= i < w2.len() implies #[trigger] w2[i].depth <= 1 by {
            assert(w2[i] == w[i]);
        }
        assert forall|i: int, j: int|
            0 <= i < j < w2.len() && w2[i].depth == 1 && w2[j].depth == 1 implies names_in_order(
            #[trigger] w2[i].path@,
            #[trigger] w2[j].path@,
        ) by {
            assert(w2[i] == w[i]);
            assert(w2[j] == w[j]);
        }
        if w.last().depth == 0 {
            lemma_listed_in_order(w2, l);
        } else {
            let l2 = l.drop_last();
            lemma_listed_in_order(w2, l2);
            assert forall|i: int, j: int| 0 <= i < j < l.len() implies names_in_order(
                #[trigger] l[i].0,
                #[trigger] l[j].0,
            ) by {
                assert(l2.len() == l.len() - 1);
                if j < l.len() - 1 {
                    assert(l2[i] == l[i]);
                    assert(l2[j] == l[j]);
                } else {
                    lemma_listed_entry(w2, l2, i);
                    let k = choose|k: int| 0 <= k < w2.len() && w2[k].depth != 0
                        && #[trigger] w2[k].path@ == l2[i].0;
                    assert(w2[k] == w[k]);
                    assert(l2[i] == l[i]);
                    assert(w[k].depth <= 1);
                    assert(w[w.len() - 1].depth <= 1);
                    assert(names_in_order(w[k].path@, w[w.len() - 1].path@));
                }
            }
        }
    }
}

/// The current listing of `dir` from disk: what the walker reported,
/// turned into a listing (see `listed_from`), with the walker asked to
/// leave out hidden and Git-ignored entries unless they are shown; paired
/// with that setting as the walker reports it. Which entries the disk holds
/// is not stated; every one listed is an entry of `dir`.
fn read_listing(dir: &str, show_hidden: bool) -> (r: (Vec<ListedEntry>, bool))
    ensures
        forall|j: int| 0 <= j < r.0@.len() ==> in_dir(dir@, #[trigger] r.0@[j].path@),
        listing_ok(dir@, show_hidden, Listing { hide: r.1, entries: listing_view(r.0@) }),
{
    let (walk, hide) = walk_directory(dir, !show_hidden);
    let ghost w = walk@;
    let r = listing_from_walk(walk);
    proof {
        let l = listing_view(r@);
        assert forall|i: int| 0 <= i < w.len() && #[trigger] w[i].depth != 0 implies in_dir(
            dir@,
            w[i].path@,
        ) by {
            assert(w[i].depth <= 1);
        }
        lemma_listed_in_dir(w, l, dir@);
        lemma_listed_in_order(w, l);
        assert forall|j: int| 0 <= j < r@.len() implies in_dir(dir@, #[trigger] r@[j].path@) by {
            assert(l[j].0 == r@[j].path@);
        }
    }
    (r, hide)
}

/// Re-read the node's directory from disk and replace its children; child
/// directories that still exist keep their previous node. A file is left
/// as it is. Returns (as ghost) the listing that was read, with the filter
/// setting the walker reported; for a file, which is not read, an empty
/// listing for the filter the tree uses.
fn populate_children(node: &mut TreeNode, show_hidden: bool) -> (l: Ghost<Listing>)
    ensures
        final(node)@ == repopulated(old(node)@, l@.entries),
        listing_ok(old(node)@.path, show_hidden, l@),
{
    let ghost v0 = node@;
    match &mut node.kind {
        NodeKind::Directory { children, expanded } => {
            let (listing, hide) = read_listing(node.path.as_str(), show_hidden);
            let mut old: Vec<TreeNode> = Vec::new();
            std::mem::swap(children, &mut old);
            *children = merge_listing(old, listing.as_slice());
            Ghost(Listing { hide, entries: listing_view(listing@) })
        },
        NodeKind::File => {
            let none: Ghost<Listing> = Ghost(Listing { hide: !show_hidden, entries: Seq::empty() });
            none
        },
    }
}

/// The root node of a tree: the directory named by its file name (or by the
/// whole path when it has none), expanded, with its children listed.
pub open spec fn scanned_root(root: Seq<char>, l: Listing) -> NodeView {
    NodeView {
        name: match file_name_of(root) {
            Some(n) => n,
            None => root,
        },
        path: root,
        kind: KindView::Dir(merged(seq![], l.entries), true),
    }
}

/// Scan a directory tree, respecting .gitignore rules.
///
/// When `show_hidden` is true, entries whose names begin with `.` and entries
/// ignored by Git are included.
/// Returns the root TreeNode representing the directory.
pub fn scan_directory(root: &str, show_hidden: bool) -> (r: TreeNode)
    ensures
        exists|l: Listing| r@ == #[trigger] scanned_root(root@, l) && listing_ok(root@, show_hidden, l),
{
    let name = match path_file_name(root) {
        Some(n) => n,
        None => root.to_owned(),
    };
    let empty: Vec<TreeNode> = Vec::new();
    proof {
        lemma_nodes_view(empty@);
        assert(nodes_view(empty@) =~= seq![]);
    }
    let mut node = TreeNode::directory(name, root.to_owned(), empty);
    node.set_expanded(true);
    let l = populate_children(&mut node, show_hidden);
    assert(node@ == scanned_root(root@, l@));
    node
}

/// A directory node expanded and re-read (a file is left as it is).
pub open spec fn expanded_node(v: NodeView, l: Listing) -> NodeView {
    if view_is_dir(v) {
        repopulated(view_with_expanded(v, true), l.entries)
    } else {
        v
    }
}

/// Expand a directory node, re-reading it from disk. Collapsed directories
/// are not watched, so any cached listing may be stale.
fn expand_node(node: &mut TreeNode, show_hidden: bool) -> (l: Ghost<Listing>)
    ensures
        final(node)@ == expanded_node(old(node)@, l@),
        listing_ok(old(node)@.path, show_hidden, l@),
{
    if node.is_dir() {
        node.set_expanded(true);
        populate_children(node, show_hidden)
    } else {
        let none: Ghost<Listing> = Ghost(Listing { hide: !show_hidden, entries: Seq::empty() });
        none
    }
}

/// A node whose listing is loaded: an empty directory is re-read, anything
/// else is left as it is.
pub open spec fn populated_node(v: NodeView, l: Listing) -> NodeView {
    if view_is_dir(v) && view_children(v).len() == 0 {
        repopulated(v, l.entries)
    } else {
        v
    }
}

/// Populate a directory node's children if they haven't been loaded yet.
fn ensure_populated(node: &mut TreeNode, show_hidden: bool) -> (l: Ghost<Listing>)
    ensures
        final(node)@ == populated_node(old(node)@, l@),
        listing_ok(old(node)@.path, show_hidden, l@),
{
    let empty = match &node.kind {
        NodeKind::Directory { children, .. } => {
            proof {
                lemma_nodes_view(children@);
            }
            children.len() == 0
        },
        NodeKind::File => false,
    };
    if empty {
        populate_children(node, show_hidden)
    } else {
        let none: Ghost<Listing> = Ghost(Listing { hide: !show_hidden, entries: Seq::empty() });
        none
    }
}

// ---------------------------------------------------------------------------
// Locating a node by path
// ---------------------------------------------------------------------------
/// Where the node with the target path is, as child indices from the root:
/// the root itself when its path is the target, or else the first child
/// (in order) whose path the target starts with and under which the node is
/// found.
pub open spec fn locate(v: NodeView, t: Seq<char>) -> Option<Seq<int>>
    decreases v, 0int,
{
    if same_path(v.path, t) {
        Some(seq![])
    } else {
        match v.kind {
            KindView::Dir(cs, _) => locate_from(cs, t, 0),
            KindView::File => None,
        }
    }
}

pub open spec fn locate_from(cs: Seq<NodeView>, t: Seq<char>, i: int) -> Option<Seq<int>>
    decreases cs, cs.len() - i,
{
    if i < 0 || i >= cs.len() {
        None
    } else if path_starts_with(t, cs[i].path) && locate(cs[i], t) is Some {
        Some(seq![i] + locate(cs[i], t)->0)
    } else {
        locate_from(cs, t, i + 1)
    }
}

/// The node at a list of child indices.
pub open spec fn node_at(v: NodeView, ix: Seq<int>) -> NodeView
    decreases ix.len(),
{
    if ix.len() == 0 {
        v
    } else {
        node_at(view_children(v)[ix[0]], ix.drop_first())
    }
}

/// The tree with the node at a list of child indices replaced by `w`.
pub open spec fn replace_at(v: NodeView, ix: Seq<int>, w: NodeView) -> NodeView
    decreases ix.len(),
{
    if ix.len() == 0 {
        w
    } else {
        let cs = view_children(v);
        view_with_children(v, cs.update(ix[0], replace_at(cs[ix[0]], ix.drop_first(), w)))
    }
}

/// Find a tree node by path: the first node, in pre-order, with the target
/// path, searching only below children whose path the target starts with.
pub fn find_node<'a>(node: &'a TreeNode, target: &str) -> (r: Option<&'a TreeNode>)
    ensures
        match locate(node@, target@) {
            None => r is None,
            Some(ix) => r matches Some(n) && n@ == node_at(node@, ix),
        },
    decreases node,
{
    if paths_equal(node.path.as_str(), target) {
        return Some(node);
    }
    match &node.kind {
        NodeKind::Directory { children, .. } => {
            let ghost cv = nodes_view(children@);
            proof {
                lemma_nodes_view(children@);
            }
            let mut i: usize = 0;
            #[verifier::loop_isolation(false)]
            while i < children.len()
                invariant
                    i <= children@.len(),
                    cv == nodes_view(children@),
                    cv.len() == children@.len(),
                    forall|j: int| 0 <= j < cv.len() ==> #[trigger] cv[j] == node_view(children@[j]),
                    node@.kind == KindView::Dir(cv, view_is_expanded(node@)),
                    !same_path(node@.path, target@),
                    locate(node@, target@) == locate_from(cv, target@, 0),
                    locate_from(cv, target@, 0) == locate_from(cv, target@, i as int),
                decreases children@.len() - i,
            {
                if path_has_prefix(target, children[i].path.as_str()) {
                    proof {
                        let k = node.kind;
                        assert(k->children == *children);
                        assert(decreases_to!(*node => k));
                        assert(decreases_to!(k => k->children));
                        assert(decreases_to!(k->children => k->children@));
                        assert(decreases_to!(k->children@ => children@[i as int]));
                    }
                    let found = find_node(&children[i], target);
                    if found.is_some() {
                        proof {
                            let ix0 = locate(cv[i as int], target@)->0;
                            let ix = seq![i as int] + ix0;
                            assert(locate_from(cv, target@, i as int) == Some(ix));
                            assert(ix.drop_first() =~= ix0);
                        }
                        return found;
                    }
                }
                i = i + 1;
            }
            None
        },
        NodeKind::File => None,
    }
}

/// A node's state after a lazy toggle: an expanded node collapses, a
/// collapsed directory expands and is re-read.
pub open spec fn lazy_toggled(v: NodeView, l: Listing) -> NodeView {
    if view_is_expanded(v) {
        view_with_expanded(v, false)
    } else {
        expanded_node(v, l)
    }
}

/// Toggle a directory at the given path, lazily populating children when expanding.
pub fn toggle_at_path_lazy(tree: &mut TreeNode, target: &str, show_hidden: bool) -> (r: bool)
    ensures
        match locate(old(tree)@, target@) {
            None => !r && final(tree)@ == old(tree)@,
            Some(ix) => r && exists|l: Listing|
                final(tree)@ == replace_at(
                    old(tree)@,
                    ix,
                    #[trigger] lazy_toggled(node_at(old(tree)@, ix), l),
                ) && listing_ok(node_at(old(tree)@, ix).path, show_hidden, l),
        },
    decreases *old(tree),
{
    if paths_equal(tree.path.as_str(), target) {
        if tree.is_expanded() {
            tree.set_expanded(false);
            assert(tree@ == replace_at(
                old(tree)@,
                seq![],
                lazy_toggled(old(tree)@, Listing { hide: !show_hidden, entries: seq![] }),
            ));
        } else {
            let l = expand_node(tree, show_hidden);
            assert(tree@ == replace_at(old(tree)@, seq![], lazy_toggled(old(tree)@, l@)));
        }
        return true;
    }
    let ghost v0 = tree@;
    match &mut tree.kind {
        NodeKind::Directory { children, expanded } => {
            let ghost old_cs = children@;
            let ghost cv = nodes_view(old_cs);
            proof {
                lemma_nodes_view(old_cs);
            }
            let mut i: usize = 0;
            #[verifier::loop_isolation(false)]
            while i < children.len()
                invariant
                    i <= children@.len(),
                    children@.len() == old_cs.len(),
                    forall|j: int|
                        0 <= j < old_cs.len() ==> node_view(#[trigger] children@[j]) == cv[j],
                    forall|j: int| i <= j < old_cs.len() ==> #[trigger] children@[j] == old_cs[j],
                    locate_from(cv, target@, 0) == locate_from(cv, target@, i as int),
                decreases children@.len() - i,
            {
                if path_has_prefix(target, children[i].path.as_str()) {
                    proof {
                        let k = old(tree).kind;
                        assert(decreases_to!(*old(tree) => k));
                        assert(decreases_to!(k => k->children));
                        assert(decreases_to!(k->children => k->children@));
                        assert(decreases_to!(k->children@ => old_cs[i as int]));
                    }
                    let found = toggle_at_path_lazy(&mut children[i], target, show_hidden);
                    if found {
                        proof {
                            let ix0 = locate(cv[i as int], target@)->0;
                            let ix = seq![i as int] + ix0;
                            assert(locate_from(cv, target@, i as int) == Some(ix));
                            assert(ix.drop_first() =~= ix0);
                            let c2 = node_view(children@[i as int]);
                            let l = choose|l: Listing|
                                c2 == replace_at(
                                    cv[i as int],
                                    ix0,
                                    lazy_toggled(node_at(cv[i as int], ix0), l),
                                ) && listing_ok(node_at(cv[i as int], ix0).path, show_hidden, l);
                            lemma_nodes_view(children@);
                            assert(nodes_view(children@) =~= cv.update(i as int, c2));
                            assert(node_at(v0, ix) == node_at(cv[i as int], ix0));
                            assert(tree@ == replace_at(v0, ix, lazy_toggled(node_at(v0, ix), l)));
                        }
                        return true;
                    }
                }
                i = i + 1;
            }
            proof {
                lemma_nodes_view_ext(children@, old_cs);
            }
            false
        },
        NodeKind::File => false,
    }
}

/// Index of the first child whose path the target starts with, from `i` on.
pub open spec fn first_prefixed(cs: Seq<NodeView>, t: Seq<char>, i: int) -> Option<int>
    decreases cs.len() - i,
{
    if i < 0 || i >= cs.len() {
        None
    } else if path_starts_with(t, cs[i].path) {
        Some(i)
    } else {
        first_prefixed(cs, t, i + 1)
    }
}

/// The node prepared for descending towards the target: an expanded node
/// has its listing loaded, a collapsed directory is expanded and re-read.
pub open spec fn prepared(v: NodeView, l: Listing) -> NodeView {
    if view_is_expanded(v) {
        populated_node(v, l)
    } else {
        expanded_node(v, l)
    }
}

/// `new` is `old` with every directory along the path to the target
/// expanded, loading listings as needed, descending into the first child
/// whose path the target starts with, at most `depth` levels deep; each
/// listing read for a tree that shows hidden entries or not.
pub open spec fn expanded_lazily(
    old: NodeView,
    new: NodeView,
    t: Seq<char>,
    depth: nat,
    show_hidden: bool,
) -> bool
    decreases depth,
{
    if !path_starts_with(t, old.path) || depth == 0 {
        new == old
    } else {
        exists|l: Listing|
            #![trigger prepared(old, l)]
            {
                let m = prepared(old, l);
                let mc = view_children(m);
                listing_ok(old.path, show_hidden, l) && match first_prefixed(mc, t, 0) {
                    None => new == m,
                    Some(i) => {
                        &&& new == view_with_children(m, mc.update(i, view_children(new)[i]))
                        &&& view_children(new).len() == mc.len()
                        &&& expanded_lazily(
                            mc[i],
                            view_children(new)[i],
                            t,
                            (depth - 1) as nat,
                            show_hidden,
                        )
                    },
                }
            }
    }
}

/// `n`, or `usize::MAX` when it is not less.
pub open spec fn capped(n: int) -> nat {
    if n < usize::MAX {
        n as nat
    } else {
        usize::MAX as nat
    }
}

/// The height of a tree (see `height`), capped at `usize::MAX`.
pub fn height_capped(node: &TreeNode) -> (r: usize)
    ensures
        r == capped(height(node@) as int),
    decreases *node,
{
    match &node.kind {
        NodeKind::Directory { children, .. } => {
            let ghost cv = nodes_view(children@);
            proof {
                lemma_nodes_view(children@);
            }
            let mut m: usize = 0;
            let mut i: usize = 0;
            #[verifier::loop_isolation(false)]
            while i < children.len()
                invariant
                    i <= children@.len(),
                    cv == nodes_view(children@),
                    cv.len() == children@.len(),
                    forall|j: int| 0 <= j < cv.len() ==> #[trigger] cv[j] == node_view(children@[j]),
                    m == capped(heights_max(cv.take(i as int)) as int),
                decreases children@.len() - i,
            {
                proof {
                    let k = node.kind;
                    assert(decreases_to!(*node => k));
                    assert(decreases_to!(k => k->children));
                    assert(decreases_to!(k->children => k->children@));
                    assert(decreases_to!(k->children@ => children@[i as int]));
                }
                let h = height_capped(&children[i]);
                proof {
                    assert(cv.take(i + 1).drop_last() =~= cv.take(i as int));
                    assert(cv.take(i + 1).last() == cv[i as int]);
                }
                if h > m {
                    m = h;
                }
                i = i + 1;
            }
            assert(cv.take(i as int) =~= cv);
            if m < usize::MAX {
                m + 1
            } else {
                m
            }
        },
        NodeKind::File => 1,
    }
}

/// How many levels a descent towards `t` may go: each step goes one level
/// down, through directories the tree already had (at most its height) or
/// through ones just read from disk, whose paths are longer by a component
/// each (and a path has no more components than characters); capped at
/// `usize::MAX`.
pub open spec fn descent_bound(v: NodeView, t: Seq<char>) -> nat {
    capped(height(v) + t.len() + 1 as int)
}

/// Expand all directories along a path, lazily populating children as needed.
pub fn expand_to_path_lazy(tree: &mut TreeNode, target: &str, show_hidden: bool)
    ensures
        expanded_lazily(old(tree)@, final(tree)@, target@, descent_bound(old(tree)@, target@), show_hidden),
{
    let h = height_capped(tree);
    let depth = h.saturating_add(target.unicode_len()).saturating_add(1);
    expand_within(tree, target, show_hidden, depth);
}

fn expand_within(tree: &mut TreeNode, target: &str, show_hidden: bool, depth: usize)
    ensures
        expanded_lazily(old(tree)@, final(tree)@, target@, depth as nat, show_hidden),
    decreases depth,
{
    if depth == 0 || !path_has_prefix(target, tree.path.as_str()) {
        return;
    }
    let l = if tree.is_expanded() {
        ensure_populated(tree, show_hidden)
    } else {
        expand_node(tree, show_hidden)
    };
    let ghost m = tree@;
    assert(m == prepared(old(tree)@, l@));
    match &mut tree.kind {
        NodeKind::Directory { children, expanded } => {
            let ghost old_cs = children@;
            let ghost cv = nodes_view(old_cs);
            proof {
                lemma_nodes_view(old_cs);
            }
            let mut i: usize = 0;
            #[verifier::loop_isolation(false)]
            while i < children.len()
                invariant
                    i <= children@.len(),
                    children@ == old_cs,
                    first_prefixed(cv, target@, 0) == first_prefixed(cv, target@, i as int),
                decreases children@.len() - i,
            {
                if path_has_prefix(target, children[i].path.as_str()) {
                    expand_within(&mut children[i], target, show_hidden, depth - 1);
                    proof {
                        let c2 = node_view(children@[i as int]);
                        lemma_nodes_view(children@);
                        assert(nodes_view(children@) =~= cv.update(i as int, c2));
                        assert(first_prefixed(cv, target@, i as int) == Some(i as int));
                        assert(view_children(tree@)[i as int] == c2);
                        assert(expanded_lazily(old(tree)@, tree@, target@, depth as nat, show_hidden));
                    }
                    return;
                }
                i = i + 1;
            }
            assert(expanded_lazily(old(tree)@, tree@, target@, depth as nat, show_hidden));
        },
        NodeKind::File => {
            assert(expanded_lazily(old(tree)@, tree@, target@, depth as nat, show_hidden));
        },
    }
}


// ---------------------------------------------------------------------------
// Refreshing one directory
// ---------------------------------------------------------------------------
/// `new` is what refreshing the directory at path `t` makes of `old`, and
/// `r` the answer: when the node found at `t` is a directory it is re-read
/// (with some listing) and the answer is true; otherwise nothing changes
/// and the answer is false.
pub open spec fn refreshed_at(
    old: NodeView,
    new: NodeView,
    t: Seq<char>,
    r: bool,
    show_hidden: bool,
) -> bool {
    match locate(old, t) {
        Some(ix) => if view_is_dir(node_at(old, ix)) {
            r && exists|l: Listing|
                #![trigger repopulated(node_at(old, ix), l.entries)]
                new == replace_at(old, ix, repopulated(node_at(old, ix), l.entries)) && listing_ok(
                    node_at(old, ix).path,
                    show_hidden,
                    l,
                )
        } else {
            !r && new == old
        },
        None => !r && new == old,
    }
}

/// Finds the node with the target path and re-reads it when it is a
/// directory: `None` when no node has the path, else whether it was re-read.
fn refresh_in(tree: &mut TreeNode, target: &str, show_hidden: bool) -> (r: Option<bool>)
    ensures
        match r {
            None => locate(old(tree)@, target@) is None && final(tree)@ == old(tree)@,
            Some(b) => locate(old(tree)@, target@) is Some && refreshed_at(
                old(tree)@,
                final(tree)@,
                target@,
                b,
                show_hidden,
            ),
        },
    decreases *old(tree),
{
    if paths_equal(tree.path.as_str(), target) {
        if tree.is_dir() {
            let l = populate_children(tree, show_hidden);
            assert(tree@ == replace_at(old(tree)@, seq![], repopulated(old(tree)@, l@.entries)));
            return Some(true);
        }
        return Some(false);
    }
    let ghost v0 = tree@;
    match &mut tree.kind {
        NodeKind::Directory { children, expanded } => {
            let ghost old_cs = children@;
            let ghost cv = nodes_view(old_cs);
            proof {
                lemma_nodes_view(old_cs);
            }
            let mut i: usize = 0;
            #[verifier::loop_isolation(false)]
            while i < children.len()
                invariant
                    i <= children@.len(),
                    children@.len() == old_cs.len(),
                    forall|j: int|
                        0 <= j < old_cs.len() ==> node_view(#[trigger] children@[j]) == cv[j],
                    forall|j: int| i <= j < old_cs.len() ==> #[trigger] children@[j] == old_cs[j],
                    locate_from(cv, target@, 0) == locate_from(cv, target@, i as int),
                decreases children@.len() - i,
            {
                if path_has_prefix(target, children[i].path.as_str()) {
                    proof {
                        let k = old(tree).kind;
                        assert(decreases_to!(*old(tree) => k));
                        assert(decreases_to!(k => k->children));
                        assert(decreases_to!(k->children => k->children@));
                        assert(decreases_to!(k->children@ => old_cs[i as int]));
                    }
                    let found = refresh_in(&mut children[i], target, show_hidden);
                    if found.is_some() {
                        proof {
                            let ix0 = locate(cv[i as int], target@)->0;
                            let ix = seq![i as int] + ix0;
                            assert(locate_from(cv, target@, i as int) == Some(ix));
                            assert(ix.drop_first() =~= ix0);
                            let c2 = node_view(children@[i as int]);
                            lemma_nodes_view(children@);
                            assert(nodes_view(children@) =~= cv.update(i as int, c2));
                            assert(node_at(v0, ix) == node_at(cv[i as int], ix0));
                            if found->0 {
                                let l = choose|l: Listing|
                                    c2 == replace_at(
                                        cv[i as int],
                                        ix0,
                                        repopulated(node_at(cv[i as int], ix0), l.entries),
                                    ) && listing_ok(node_at(cv[i as int], ix0).path, show_hidden, l);
                                assert(tree@ == replace_at(
                                    v0,
                                    ix,
                                    repopulated(node_at(v0, ix), l.entries),
                                ));
                            } else {
                                assert(cv.update(i as int, c2) =~= cv);
                            }
                        }
                        return found;
                    }
                }
                i = i + 1;
            }
            proof {
                lemma_nodes_view_ext(children@, old_cs);
            }
            None
        },
        NodeKind::File => None,
    }
}

/// Re-scan a single directory's children, preserving expansion state of subdirectories.
/// Returns true if the directory was found and refreshed.
pub fn refresh_directory(tree: &mut TreeNode, target_dir: &str, show_hidden: bool) -> (r: bool)
    ensures
        refreshed_at(old(tree)@, final(tree)@, target_dir@, r, show_hidden),
{
    match refresh_in(tree, target_dir, show_hidden) {
        Some(b) => b,
        None => false,
    }
}

// ---------------------------------------------------------------------------
// Expanded directories
// ---------------------------------------------------------------------------
/// The paths of the expanded directories, in pre-order: an expanded
/// directory, then those below it; nothing below a collapsed one.
pub open spec fn expanded_dirs(v: NodeView) -> Seq<Seq<char>>
    decreases v, 0int,
{
    match v.kind {
        KindView::Dir(cs, true) => seq![v.path] + expanded_dirs_all(cs, cs.len() as int),
        _ => seq![],
    }
}

/// The expanded directories of the first `n` of `cs`, in order.
pub open spec fn expanded_dirs_all(cs: Seq<NodeView>, n: int) -> Seq<Seq<char>>
    decreases cs, n,
{
    if n <= 0 || n > cs.len() {
        seq![]
    } else {
        expanded_dirs_all(cs, n - 1) + expanded_dirs(cs[n - 1])
    }
}

/// Whether the node at `ix` exists and every node above it is an expanded
/// directory.
pub open spec fn opened_along(v: NodeView, ix: Seq<int>) -> bool
    decreases ix.len(),
{
    ix.len() == 0 || (view_is_expanded(v) && 0 <= ix[0] < view_children(v).len() && opened_along(
        view_children(v)[ix[0]],
        ix.drop_first(),
    ))
}

proof fn lemma_dirs_all_prefix(cs: Seq<NodeView>, i: int, c: NodeView, m: int)
    requires
        0 <= i < cs.len(),
        m <= i,
    ensures
        expanded_dirs_all(cs.update(i, c), m) == expanded_dirs_all(cs, m),
    decreases m,
{
    if m > 0 {
        lemma_dirs_all_prefix(cs, i, c, m - 1);
        assert(cs.update(i, c)[m - 1] == cs[m - 1]);
    }
}

/// Replacing child `i` changes only its own part of the expanded
/// directories of the children.
proof fn lemma_dirs_all_split(cs: Seq<NodeView>, i: int, c: NodeView, n: int) -> (y: Seq<Seq<char>>)
    requires
        0 <= i < n <= cs.len(),
    ensures
        expanded_dirs_all(cs, n) == expanded_dirs_all(cs, i) + expanded_dirs(cs[i]) + y,
        expanded_dirs_all(cs.update(i, c), n) == expanded_dirs_all(cs, i) + expanded_dirs(c) + y,
    decreases n,
{
    let cs2 = cs.update(i, c);
    if n == i + 1 {
        lemma_dirs_all_prefix(cs, i, c, i);
        assert(cs2[i] == c);
        assert(expanded_dirs_all(cs, n) =~= expanded_dirs_all(cs, i) + expanded_dirs(cs[i]) + seq![]);
        assert(expanded_dirs_all(cs2, n) =~= expanded_dirs_all(cs, i) + expanded_dirs(c) + seq![]);
        seq![]
    } else {
        let y0 = lemma_dirs_all_split(cs, i, c, n - 1);
        assert(cs2[n - 1] == cs[n - 1]);
        let y = y0 + expanded_dirs(cs[n - 1]);
        assert(expanded_dirs_all(cs, n) =~= expanded_dirs_all(cs, i) + expanded_dirs(cs[i]) + y);
        assert(expanded_dirs_all(cs2, n) =~= expanded_dirs_all(cs, i) + expanded_dirs(c) + y);
        y
    }
}

/// Replacing the node at `ix`, below expanded directories only, changes
/// only its own part of the expanded directories: what comes before and
/// after it stays.
pub(crate) proof fn lemma_dirs_replace(v: NodeView, ix: Seq<int>, w: NodeView) -> (r: (
    Seq<Seq<char>>,
    Seq<Seq<char>>,
))
    requires
        opened_along(v, ix),
    ensures
        expanded_dirs(v) == r.0 + expanded_dirs(node_at(v, ix)) + r.1,
        expanded_dirs(replace_at(v, ix, w)) == r.0 + expanded_dirs(w) + r.1,
    decreases ix.len(),
{
    if ix.len() == 0 {
        assert(expanded_dirs(v) =~= seq![] + expanded_dirs(v) + seq![]);
        assert(expanded_dirs(w) =~= seq![] + expanded_dirs(w) + seq![]);
        (seq![], seq![])
    } else {
        let cs = view_children(v);
        let i = ix[0];
        let rest = ix.drop_first();
        let sub = lemma_dirs_replace(cs[i], rest, w);
        let c2 = replace_at(cs[i], rest, w);
        let y = lemma_dirs_all_split(cs, i, c2, cs.len() as int);
        let pre = seq![v.path] + expanded_dirs_all(cs, i) + sub.0;
        let post = sub.1 + y;
        assert(node_at(v, ix) == node_at(cs[i], rest));
        let v2 = replace_at(v, ix, w);
        assert(v2.kind == KindView::Dir(cs.update(i, c2), true));
        assert(expanded_dirs(v) =~= pre + expanded_dirs(node_at(v, ix)) + post);
        assert(expanded_dirs(v2) =~= pre + expanded_dirs(w) + post);
        (pre, post)
    }
}

proof fn lemma_locate_from_found(cs: Seq<NodeView>, t: Seq<char>, j: int)
    requires
        0 <= j,
        locate_from(cs, t, j) is Some,
    ensures
        ({
            let ix = locate_from(cs, t, j)->0;
            let i = ix[0];
            &&& j <= i < cs.len()
            &&& path_starts_with(t, cs[i].path)
            &&& locate(cs[i], t) is Some
            &&& ix == seq![i] + locate(cs[i], t)->0
            &&& forall|k: int|
                j <= k < i ==> !(path_starts_with(t, #[trigger] cs[k].path) && locate(cs[k], t) is Some)
        }),
    decreases cs.len() - j,
{
    if !(path_starts_with(t, cs[j].path) && locate(cs[j], t) is Some) {
        lemma_locate_from_found(cs, t, j + 1);
    } else {
        assert((seq![j] + locate(cs[j], t)->0)[0] == j);
    }
}

proof fn lemma_locate_from_update(cs: Seq<NodeView>, t: Seq<char>, j: int, i: int, c: NodeView)
    requires
        0 <= j <= i < cs.len(),
        forall|k: int|
            j <= k < i ==> !(path_starts_with(t, #[trigger] cs[k].path) && locate(cs[k], t) is Some),
        path_starts_with(t, c.path),
        locate(c, t) is Some,
    ensures
        locate_from(cs.update(i, c), t, j) == Some(seq![i] + locate(c, t)->0),
    decreases i - j,
{
    let cs2 = cs.update(i, c);
    if j < i {
        assert(cs2[j] == cs[j]);
        lemma_locate_from_update(cs, t, j + 1, i, c);
    } else {
        assert(cs2[i] == c);
    }
}

/// Replacing the node found at a path by one with the same path, the same
/// node is found there again.
pub(crate) proof fn lemma_locate_replace(v: NodeView, t: Seq<char>, w: NodeView)
    requires
        locate(v, t) is Some,
        w.path == node_at(v, locate(v, t)->0).path,
    ensures
        locate(replace_at(v, locate(v, t)->0, w), t) == Some(locate(v, t)->0),
        node_at(replace_at(v, locate(v, t)->0, w), locate(v, t)->0) == w,
    decreases v,
{
    let ix = locate(v, t)->0;
    if same_path(v.path, t) {
        assert(ix.len() == 0);
    } else {
        match v.kind {
            KindView::Dir(cs, e) => {
                lemma_locate_from_found(cs, t, 0);
                let i = ix[0];
                let rest = locate(cs[i], t)->0;
                assert(ix.drop_first() =~= rest);
                assert(decreases_to!(cs => cs[i]));
                assert(node_at(v, ix) == node_at(cs[i], rest));
                lemma_locate_replace(cs[i], t, w);
                let c2 = replace_at(cs[i], rest, w);
                assert(c2.path == cs[i].path);
                lemma_locate_from_update(cs, t, 0, i, c2);
                let v2 = replace_at(v, ix, w);
                assert(v2.kind == KindView::Dir(cs.update(i, c2), e));
                assert(cs.update(i, c2)[i] == c2);
                assert(node_at(v2, ix) == node_at(c2, rest));
            },
            KindView::File => {},
        }
    }
}

pub open spec fn strings_view(v: Seq<String>) -> Seq<Seq<char>> {
    v.map_values(|s: String| s@)
}

fn collect_into(node: &TreeNode, dirs: &mut Vec<String>)
    ensures
        strings_view(final(dirs)@) == strings_view(old(dirs)@) + expanded_dirs(node@),
    decreases *node,
{
    if let NodeKind::Directory { children, expanded: true } = &node.kind {
        let ghost cs = nodes_view(children@);
        proof {
            lemma_nodes_view(children@);
        }
        let ghost start = strings_view(dirs@);
        let ghost before = dirs@;
        dirs.push(node.path.clone());
        assert(strings_view(dirs@) =~= strings_view(before).push(node.path@));
        let mut i: usize = 0;
        #[verifier::loop_isolation(false)]
        while i < children.len()
            invariant
                i <= children@.len(),
                cs == nodes_view(children@),
                cs.len() == children@.len(),
                forall|j: int| 0 <= j < cs.len() ==> #[trigger] cs[j] == node_view(children@[j]),
                strings_view(dirs@) == start + seq![node.path@] + expanded_dirs_all(cs, i as int),
            decreases children@.len() - i,
        {
            proof {
                let k = node.kind;
                assert(decreases_to!(*node => k));
                assert(decreases_to!(k => k->children));
                assert(decreases_to!(k->children => k->children@));
                assert(decreases_to!(k->children@ => children@[i as int]));
            }
            collect_into(&children[i], dirs);
            proof {
                assert(expanded_dirs_all(cs, i + 1) == expanded_dirs_all(cs, i as int)
                    + expanded_dirs(cs[i as int]));
            }
            i = i + 1;
        }
        assert(node@.kind == KindView::Dir(cs, true));
        assert(start + seq![node.path@] + expanded_dirs_all(cs, cs.len() as int) =~= start
            + expanded_dirs(node@));
    }
}

/// Collect paths of all expanded directories in the tree.
pub fn collect_expanded_dirs(node: &TreeNode) -> (r: Vec<String>)
    ensures
        strings_view(r@) == expanded_dirs(node@),
{
    let mut dirs: Vec<String> = Vec::new();
    collect_into(node, &mut dirs);
    assert(strings_view(Seq::<String>::empty()) =~= seq![]);
    assert(seq![] + expanded_dirs(node@) =~= expanded_dirs(node@));
    dirs
}

// ---------------------------------------------------------------------------
// Documents and READMEs
// ---------------------------------------------------------------------------
/// Whether a file extension names a document that can be rendered.
pub open spec fn document_extension(ext: Option<Seq<char>>) -> bool {
    match ext {
        Some(e) => e == "md"@ || e == "markdown"@ || e == "mkd"@ || e == "mdx"@ || e == "rst"@
            || e == "rest"@ || e == "org"@ || e == "txt"@,
        None => false,
    }
}

/// Check if a path is a document file we can render.
pub fn is_document(path: &str) -> (r: bool)
    ensures
        r == document_extension(path_extension(path@)),
{
    match path_extension_of(path) {
        Some(e) => {
            let c = chars_of(e.as_str());
            let s = c.as_slice();
            eq_str(s, "md") || eq_str(s, "markdown") || eq_str(s, "mkd") || eq_str(s, "mdx")
                || eq_str(s, "rst") || eq_str(s, "rest") || eq_str(s, "org") || eq_str(s, "txt")
        },
        None => false,
    }
}

/// The README names, in priority order.
pub open spec fn readme_names() -> Seq<Seq<char>> {
    seq!["README.md"@, "README.org"@, "README.rst"@, "README.txt"@, "README"@]
}

/// The README a directory offers, given for each name in priority order
/// whether the file system found a file by that name: the first name
/// found, joined to the directory.
pub open spec fn first_readme(dir: Seq<char>, found: Seq<bool>) -> Option<Seq<char>> {
    if found[0] {
        Some(joined(dir, readme_names()[0]))
    } else if found[1] {
        Some(joined(dir, readme_names()[1]))
    } else if found[2] {
        Some(joined(dir, readme_names()[2]))
    } else if found[3] {
        Some(joined(dir, readme_names()[3]))
    } else if found[4] {
        Some(joined(dir, readme_names()[4]))
    } else {
        None
    }
}

/// Find a README file in the given directory, checking common names in priority order.
///
/// Whether a candidate is a file is asked of the file system; what is
/// stated is that the answer is the first candidate, in priority order,
/// for which it said yes (and nothing when it said no to all of them).
pub fn find_readme(dir: &str) -> (r: Option<String>)
    ensures
        r matches Some(p) ==> exists|k: int|
            0 <= k < readme_names().len() && p@ == joined(dir@, #[trigger] readme_names()[k]),
        exists|found: Seq<bool>|
            found.len() == readme_names().len() && match r {
                Some(p) => #[trigger] first_readme(dir@, found) == Some(p@),
                None => first_readme(dir@, found) is None,
            },
{
    let mut found: Vec<bool> = Vec::new();
    let mut hit = false;
    let mut k: usize = 0;
    while k < 5
        invariant
            k <= 5,
            found@.len() == k,
        decreases 5 - k,
    {
        if hit {
            found.push(false);
        } else {
            let candidate = readme_candidate(dir, k);
            let yes = path_is_file(candidate.as_str());
            found.push(yes);
            hit = yes;
        }
        k = k + 1;
    }
    readme_from_answers(dir, found.as_slice())
}

/// The README candidate of priority `k`: the directory joined with the
/// `k`-th name.
fn readme_candidate(dir: &str, k: usize) -> (r: String)
    requires
        k < 5,
    ensures
        r@ == joined(dir@, readme_names()[k as int]),
{
    if k == 0 {
        path_join(dir, "README.md")
    } else if k == 1 {
        path_join(dir, "README.org")
    } else if k == 2 {
        path_join(dir, "README.rst")
    } else if k == 3 {
        path_join(dir, "README.txt")
    } else {
        path_join(dir, "README")
    }
}

/// The README a directory offers, given the file system's answers, in
/// priority order, to whether each candidate is a file (see
/// `first_readme`).
pub fn readme_from_answers(dir: &str, found: &[bool]) -> (r: Option<String>)
    requires
        found@.len() == readme_names().len(),
    ensures
        match r {
            Some(p) => first_readme(dir@, found@) == Some(p@),
            None => first_readme(dir@, found@) is None,
        },
        r matches Some(p) ==> exists|k: int|
            0 <= k < readme_names().len() && p@ == joined(dir@, #[trigger] readme_names()[k]),
{
    let mut k: usize = 0;
    while k < 5
        invariant
            k <= 5,
            found@.len() == 5,
            forall|j: int| 0 <= j < k ==> !found@[j],
        decreases 5 - k,
    {
        if found[k] {
            let p = readme_candidate(dir, k);
            assert(first_readme(dir@, found@) == Some(p@));
            return Some(p);
        }
        k = k + 1;
    }
    None
}


// ---------------------------------------------------------------------------
// Re-reading every expanded directory
// ---------------------------------------------------------------------------
/// A node that is either collapsed (or a file) or one of `ds`.
pub open spec fn kept_or_collapsed(c: NodeView, ds: Seq<NodeView>) -> bool {
    !view_is_expanded(c) || exists|j: int| 0 <= j < ds.len() && c == ds[j]
}

proof fn lemma_dirs_of(cs: Seq<NodeView>)
    ensures
        forall|k: int|
            0 <= k < dirs_of(cs).len() ==> exists|j: int|
                0 <= j < cs.len() && #[trigger] dirs_of(cs)[k] == cs[j],
    decreases cs.len(),
{
    if cs.len() > 0 {
        lemma_dirs_of(cs.drop_last());
        let d = dirs_of(cs.drop_last());
        assert forall|k: int| 0 <= k < dirs_of(cs).len() implies exists|j: int|
            0 <= j < cs.len() && #[trigger] dirs_of(cs)[k] == cs[j] by {
            if k < d.len() {
                let j = choose|j: int| 0 <= j < cs.drop_last().len() && d[k] == cs.drop_last()[j];
                assert(cs.drop_last()[j] == cs[j]);
            } else {
                assert(dirs_of(cs)[k] == cs[cs.len() - 1]);
            }
        }
    }
}

proof fn lemma_merge_from_kept(
    ds: Seq<NodeView>,
    l: Seq<(Seq<char>, bool)>,
    i: int,
    used: Set<int>,
    dirs: Seq<NodeView>,
    files: Seq<NodeView>,
)
    requires
        forall|k: int| 0 <= k < dirs.len() ==> kept_or_collapsed(#[trigger] dirs[k], ds),
        forall|k: int| 0 <= k < files.len() ==> kept_or_collapsed(#[trigger] files[k], ds),
    ensures
        forall|k: int|
            0 <= k < merge_from(ds, l, i, used, dirs, files).len() ==> kept_or_collapsed(
                #[trigger] merge_from(ds, l, i, used, dirs, files)[k],
                ds,
            ),
    decreases l.len() - i,
{
    if i < 0 || i >= l.len() {
        let r = dirs + files;
        assert(merge_from(ds, l, i, used, dirs, files) == r);
        assert forall|k: int| 0 <= k < r.len() implies kept_or_collapsed(#[trigger] r[k], ds) by {
            if k < dirs.len() {
                assert(r[k] == dirs[k]);
            } else {
                assert(r[k] == files[k - dirs.len()]);
            }
        }
    } else if l[i].1 {
        match pick(ds, used, l[i].0, 0) {
            Some(j) => {
                lemma_pick(ds, used, l[i].0, 0);
                let d2 = dirs.push(ds[j]);
                assert forall|k: int| 0 <= k < d2.len() implies kept_or_collapsed(
                    #[trigger] d2[k],
                    ds,
                ) by {
                    if k == dirs.len() {
                        assert(d2[k] == ds[j]);
                    } else {
                        assert(d2[k] == dirs[k]);
                    }
                }
                lemma_merge_from_kept(ds, l, i + 1, used.insert(j), d2, files);
                assert(merge_from(ds, l, i, used, dirs, files) == merge_from(
                    ds,
                    l,
                    i + 1,
                    used.insert(j),
                    d2,
                    files,
                ));
            },
            None => {
                let d2 = dirs.push(new_dir_view(l[i].0));
                assert forall|k: int| 0 <= k < d2.len() implies kept_or_collapsed(
                    #[trigger] d2[k],
                    ds,
                ) by {
                    if k < dirs.len() {
                        assert(d2[k] == dirs[k]);
                    }
                }
                lemma_merge_from_kept(ds, l, i + 1, used, d2, files);
                assert(merge_from(ds, l, i, used, dirs, files) == merge_from(
                    ds,
                    l,
                    i + 1,
                    used,
                    d2,
                    files,
                ));
            },
        }
    } else {
        let f2 = files.push(new_file_view(l[i].0));
        assert forall|k: int| 0 <= k < f2.len() implies kept_or_collapsed(#[trigger] f2[k], ds) by {
            if k < files.len() {
                assert(f2[k] == files[k]);
            }
        }
        lemma_merge_from_kept(ds, l, i + 1, used, dirs, f2);
        assert(merge_from(ds, l, i, used, dirs, files) == merge_from(ds, l, i + 1, used, dirs, f2));
    }
}

/// After a re-read, an expanded child is one of the previous children, so
/// it is lower than the directory.
proof fn lemma_repopulated_lower(v: NodeView, l: Seq<(Seq<char>, bool)>)
    requires
        view_is_dir(v),
    ensures
        forall|k: int|
            0 <= k < view_children(repopulated(v, l)).len() ==> {
                let c = #[trigger] view_children(repopulated(v, l))[k];
                !view_is_expanded(c) || height(c) < height(v)
            },
{
    let cs = view_children(v);
    let ds = dirs_of(cs);
    lemma_merge_from_kept(ds, l, 0, Set::empty(), seq![], seq![]);
    lemma_dirs_of(cs);
    let m = merged(cs, l);
    assert(view_children(repopulated(v, l)) == m);
    assert forall|k: int| 0 <= k < m.len() implies {
        let c = #[trigger] m[k];
        !view_is_expanded(c) || height(c) < height(v)
    } by {
        let c = m[k];
        assert(kept_or_collapsed(c, ds));
        if view_is_expanded(c) {
            let j = choose|j: int| 0 <= j < ds.len() && c == ds[j];
            let q = choose|q: int| 0 <= q < cs.len() && #[trigger] ds[j] == cs[q];
            lemma_heights_max(cs, q);
        }
    }
}

/// `new` is `old` with every expanded directory re-read (each with some
/// listing, read for a tree that shows hidden entries or not), top down,
/// going at most `depth` levels deep.
pub open spec fn rescanned(old: NodeView, new: NodeView, depth: nat, show_hidden: bool) -> bool
    decreases depth,
{
    if !view_is_expanded(old) || depth == 0 {
        new == old
    } else {
        exists|l: Listing|
            #![trigger repopulated(old, l.entries)]
            {
                let m = repopulated(old, l.entries);
                let mc = view_children(m);
                let nc = view_children(new);
                &&& listing_ok(old.path, show_hidden, l)
                &&& new == view_with_children(m, nc)
                &&& nc.len() == mc.len()
                &&& forall|i: int|
                    0 <= i < mc.len() ==> rescanned(
                        #[trigger] mc[i],
                        nc[i],
                        (depth - 1) as nat,
                        show_hidden,
                    )
            }
    }
}

fn rescan_within(tree: &mut TreeNode, show_hidden: bool, depth: Ghost<nat>)
    requires
        view_is_expanded(old(tree)@) ==> height(old(tree)@) <= depth@,
    ensures
        rescanned(old(tree)@, final(tree)@, depth@, show_hidden),
    decreases depth@,
{
    if !tree.is_expanded() {
        return;
    }
    let l = populate_children(tree, show_hidden);
    let ghost m = tree@;
    let ghost mc = view_children(m);
    proof {
        lemma_repopulated_lower(old(tree)@, l@.entries);
    }
    match &mut tree.kind {
        NodeKind::Directory { children, expanded } => {
            let ghost old_cs = children@;
            proof {
                lemma_nodes_view(old_cs);
            }
            let mut i: usize = 0;
            #[verifier::loop_isolation(false)]
            while i < children.len()
                invariant
                    i <= children@.len(),
                    children@.len() == old_cs.len(),
                    mc.len() == old_cs.len(),
                    forall|j: int| i <= j < old_cs.len() ==> #[trigger] children@[j] == old_cs[j],
                    forall|j: int|
                        0 <= j < i ==> rescanned(
                            #[trigger] mc[j],
                            node_view(children@[j]),
                            (depth@ - 1) as nat,
                            show_hidden,
                        ),
                decreases children@.len() - i,
            {
                assert(mc[i as int] == node_view(children@[i as int]));
                rescan_within(&mut children[i], show_hidden, Ghost((depth@ - 1) as nat));
                i = i + 1;
            }
            proof {
                let nc = nodes_view(children@);
                lemma_nodes_view(children@);
                assert(tree@ == view_with_children(m, nc));
                assert forall|j: int| 0 <= j < mc.len() implies rescanned(
                    #[trigger] mc[j],
                    nc[j],
                    (depth@ - 1) as nat,
                    show_hidden,
                ) by {
                    assert(nc[j] == node_view(children@[j]));
                }
                assert(rescanned(old(tree)@, tree@, depth@, show_hidden));
            }
        },
        NodeKind::File => {},
    }
}

/// Re-read every expanded directory from disk, keeping the current expansion
/// state. Used for a manual refresh and when the hidden-entry filter changes.
pub fn rescan_tree(tree: &mut TreeNode, show_hidden: bool)
    ensures
        rescanned(old(tree)@, final(tree)@, height(old(tree)@), show_hidden),
{
    rescan_within(tree, show_hidden, Ghost(height(tree@)));
}


// ---------------------------------------------------------------------------
// A re-read keeps the directories that are still there
// ---------------------------------------------------------------------------
/// The previous directories have distinct paths, no listed directory names
/// two of them, and no previous directory is named by two listed
/// directories.
pub open spec fn merge_unambiguous(ds: Seq<NodeView>, l: Seq<(Seq<char>, bool)>) -> bool {
    &&& forall|j: int, k: int|
        0 <= j < k < ds.len() ==> !same_path(#[trigger] ds[k].path, #[trigger] ds[j].path)
    &&& forall|q: int, j: int, k: int|
        0 <= q < l.len() && 0 <= j < ds.len() && 0 <= k < ds.len() && j != k && l[q].1 ==> !(
        same_path(#[trigger] ds[j].path, #[trigger] l[q].0) && same_path(
            #[trigger] ds[k].path,
            l[q].0,
        ))
    &&& forall|j: int, q1: int, q2: int|
        0 <= j < ds.len() && 0 <= q1 < l.len() && 0 <= q2 < l.len() && q1 != q2 && l[q1].1
            && l[q2].1 ==> !(same_path(#[trigger] ds[j].path, #[trigger] l[q1].0) && same_path(
            ds[j].path,
            #[trigger] l[q2].0,
        ))
}

proof fn lemma_pick_unique(ds: Seq<NodeView>, used: Set<int>, p: Seq<char>, j: int, m: int)
    requires
        0 <= m <= j < ds.len(),
        is_live(ds, j),
        !used.contains(j),
        same_path(ds[j].path, p),
        forall|k: int| 0 <= k < ds.len() && k != j ==> !same_path(#[trigger] ds[k].path, p),
    ensures
        pick(ds, used, p, m) == Some(j),
    decreases j - m,
{
    if m < j {
        assert(!same_path(ds[m].path, p));
        lemma_pick_unique(ds, used, p, j, m + 1);
    }
}

proof fn lemma_merge_keeps_dirs(
    ds: Seq<NodeView>,
    l: Seq<(Seq<char>, bool)>,
    i: int,
    used: Set<int>,
    dirs: Seq<NodeView>,
    files: Seq<NodeView>,
    x: NodeView,
)
    requires
        dirs.contains(x),
    ensures
        merge_from(ds, l, i, used, dirs, files).contains(x),
    decreases l.len() - i,
{
    if i < 0 || i >= l.len() {
        let w = choose|w: int| 0 <= w < dirs.len() && dirs[w] == x;
        assert((dirs + files)[w] == x);
    } else if l[i].1 {
        match pick(ds, used, l[i].0, 0) {
            Some(k) => {
                let d2 = dirs.push(ds[k]);
                let w = choose|w: int| 0 <= w < dirs.len() && dirs[w] == x;
                assert(d2[w] == x);
                lemma_merge_keeps_dirs(ds, l, i + 1, used.insert(k), d2, files, x);
            },
            None => {
                let d2 = dirs.push(new_dir_view(l[i].0));
                let w = choose|w: int| 0 <= w < dirs.len() && dirs[w] == x;
                assert(d2[w] == x);
                lemma_merge_keeps_dirs(ds, l, i + 1, used, d2, files, x);
            },
        }
    } else {
        lemma_merge_keeps_dirs(ds, l, i + 1, used, dirs, files.push(new_file_view(l[i].0)), x);
    }
}

proof fn lemma_merge_keeps_listed(
    ds: Seq<NodeView>,
    l: Seq<(Seq<char>, bool)>,
    i: int,
    used: Set<int>,
    dirs: Seq<NodeView>,
    files: Seq<NodeView>,
    j: int,
    q: int,
)
    requires
        merge_unambiguous(ds, l),
        0 <= j < ds.len(),
        0 <= i <= q < l.len(),
        !used.contains(j),
        l[q].1,
        same_path(ds[j].path, l[q].0),
    ensures
        merge_from(ds, l, i, used, dirs, files).contains(ds[j]),
    decreases l.len() - i,
{
    if l[i].1 {
        match pick(ds, used, l[i].0, 0) {
            Some(k) => {
                lemma_pick(ds, used, l[i].0, 0);
                let d2 = dirs.push(ds[k]);
                if i == q {
                    if k != j {
                        assert(!(same_path(ds[j].path, l[q].0) && same_path(ds[k].path, l[q].0)));
                    }
                    assert(d2[dirs.len() as int] == ds[j]);
                    lemma_merge_keeps_dirs(ds, l, i + 1, used.insert(k), d2, files, ds[j]);
                } else {
                    if k == j {
                        assert(!(same_path(ds[j].path, l[q].0) && same_path(ds[j].path, l[i].0)));
                    }
                    lemma_merge_keeps_listed(ds, l, i + 1, used.insert(k), d2, files, j, q);
                }
            },
            None => {
                if i == q {
                    assert forall|k: int| 0 <= k < ds.len() && k != j implies !same_path(
                        #[trigger] ds[k].path,
                        l[q].0,
                    ) by {
                        assert(!(same_path(ds[j].path, l[q].0) && same_path(ds[k].path, l[q].0)));
                    }
                    assert(is_live(ds, j));
                    lemma_pick_unique(ds, used, l[q].0, j, 0);
                } else {
                    lemma_merge_keeps_listed(
                        ds,
                        l,
                        i + 1,
                        used,
                        dirs.push(new_dir_view(l[i].0)),
                        files,
                        j,
                        q,
                    );
                }
            },
        }
    } else {
        lemma_merge_keeps_listed(ds, l, i + 1, used, dirs, files.push(new_file_view(l[i].0)), j, q);
    }
}

/// Re-reading a directory keeps every previous child directory that is
/// listed again: the same node, with its expansion state and its loaded
/// children (when the paths involved name one another unambiguously).
pub proof fn lemma_merge_keeps_listed_dirs(old: Seq<NodeView>, l: Seq<(Seq<char>, bool)>, j: int, q: int)
    requires
        merge_unambiguous(dirs_of(old), l),
        0 <= j < dirs_of(old).len(),
        0 <= q < l.len(),
        l[q].1,
        same_path(dirs_of(old)[j].path, l[q].0),
    ensures
        merged(old, l).contains(dirs_of(old)[j]),
{
    lemma_merge_keeps_listed(dirs_of(old), l, 0, Set::empty(), seq![], seq![], j, q);
}


// ---------------------------------------------------------------------------
// Expanded directories are the expanded entries of the flattened tree
// ---------------------------------------------------------------------------
/// The paths of the expanded directories among flattened entries, in order.
pub open spec fn expanded_paths(es: Seq<(NodeView, int)>) -> Seq<Seq<char>>
    decreases es.len(),
{
    if es.len() == 0 {
        seq![]
    } else if view_is_expanded(es.last().0) {
        expanded_paths(es.drop_last()).push(es.last().0.path)
    } else {
        expanded_paths(es.drop_last())
    }
}

proof fn lemma_expanded_paths_concat(a: Seq<(NodeView, int)>, b: Seq<(NodeView, int)>)
    ensures
        expanded_paths(a + b) == expanded_paths(a) + expanded_paths(b),
    decreases b.len(),
{
    if b.len() == 0 {
        assert(a + b =~= a);
        assert(expanded_paths(a) + seq![] =~= expanded_paths(a));
    } else {
        lemma_expanded_paths_concat(a, b.drop_last());
        assert((a + b).drop_last() =~= a + b.drop_last());
        assert((a + b).last() == b.last());
        if view_is_expanded(b.last().0) {
            assert(expanded_paths(a) + expanded_paths(b.drop_last()).push(b.last().0.path)
                =~= (expanded_paths(a) + expanded_paths(b.drop_last())).push(b.last().0.path));
        }
    }
}

proof fn lemma_expanded_dirs_visible(v: NodeView, d: int)
    ensures
        expanded_dirs(v) == expanded_paths(visible(v, d)),
    decreases v, 0int,
{
    let head = seq![(v, d)];
    assert(expanded_paths(head) == if view_is_expanded(v) {
        seq![v.path]
    } else {
        Seq::<Seq<char>>::empty()
    }) by {
        assert(head.drop_last() =~= Seq::<(NodeView, int)>::empty());
        assert(head.last() == (v, d));
        assert(expanded_paths(head.drop_last()) == Seq::<Seq<char>>::empty());
        if view_is_expanded(v) {
            assert(Seq::<Seq<char>>::empty().push(v.path) =~= seq![v.path]);
        }
    }
    match v.kind {
        KindView::Dir(cs, true) => {
            lemma_expanded_dirs_visible_all(cs, d + 1, cs.len() as int);
            lemma_expanded_paths_concat(head, visible_all(cs, d + 1, cs.len() as int));
        },
        _ => {
            assert(visible(v, d) =~= head);
        },
    }
}

proof fn lemma_expanded_dirs_visible_all(cs: Seq<NodeView>, d: int, n: int)
    ensures
        expanded_dirs_all(cs, n) == expanded_paths(visible_all(cs, d, n)),
    decreases cs, n,
{
    if n <= 0 || n > cs.len() {
    } else {
        lemma_expanded_dirs_visible_all(cs, d, n - 1);
        assert(decreases_to!(cs => cs[n - 1]));
        lemma_expanded_dirs_visible(cs[n - 1], d);
        lemma_expanded_paths_concat(visible_all(cs, d, n - 1), visible(cs[n - 1], d));
    }
}

/// The directories `collect_expanded_dirs` reports are exactly the
/// expanded directories among the entries `flatten` shows, in the same
/// order.
pub proof fn lemma_expanded_dirs_are_visible(v: NodeView, depth: int)
    ensures
        expanded_dirs(v) == expanded_paths(visible(v, depth)),
{
    lemma_expanded_dirs_visible(v, depth);
}

} // verus!
