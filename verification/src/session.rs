//! What the viewers decide when paths are opened: the file shown first,
//! the visible tree as a list of entries, the tree a chosen path opens on,
//! and where a link leads.
use vstd::prelude::*;

use crate::document::{format_name, Document};
use crate::git::{find_git_root, found_root, opt_chars_of, opt_text};
use crate::pathname::{
    absolute_text, file_name_of, joined, parent_of, path_exists, path_file_name,
    path_has_prefix, path_is_absolute, path_is_dir, path_is_file, path_join, path_parent,
    path_starts_with, paths_equal, same_path,
};
use crate::tree::{flat_view, height, view_is_dir, view_is_expanded, visible, NodeView, TreeNode};
use crate::tree_fs::{
    descent_bound, listing_ok, Listing, expand_to_path_lazy, expanded_lazily, find_readme, first_readme, readme_names,
    scan_directory,
    scanned_root,
};
use crate::render::bytes_view;
use crate::web::{document_html, render_to_html};

verus! {

// ---------------------------------------------------------------------------
// The tree as a list
// ---------------------------------------------------------------------------
/// One visible row of the file tree, as the desktop viewer lists it.
#[derive(Debug)]
pub struct TreeEntry {
    pub name: String,
    pub path: String,
    pub depth: usize,
    pub is_dir: bool,
    pub is_expanded: bool,
    /// Whether this is the file being viewed.
    pub is_current: bool,
}

/// The content of an entry: name, path, depth, and the three flags.
pub open spec fn entry_view(e: TreeEntry) -> (Seq<char>, Seq<char>, int, bool, bool, bool) {
    (e.name@, e.path@, e.depth as int, e.is_dir, e.is_expanded, e.is_current)
}

/// The entry for a visible node at a depth, given the file being viewed.
pub open spec fn entry_of(v: NodeView, depth: int, current: Option<Seq<char>>) -> (
    Seq<char>,
    Seq<char>,
    int,
    bool,
    bool,
    bool,
) {
    (
        v.name,
        v.path,
        depth,
        view_is_dir(v),
        view_is_expanded(v),
        match current {
            Some(c) => same_path(c, v.path),
            None => false,
        },
    )
}

/// The visible nodes of a tree, in order, each as an entry (the root at
/// depth 0); the entry whose path equals the current file is marked.
pub fn tree_entries(tree: &TreeNode, current_file: Option<&str>) -> (r: Vec<TreeEntry>)
    requires
        height(tree@) <= usize::MAX,
    ensures
        r@.len() == visible(tree@, 0).len(),
        forall|i: int|
            0 <= i < r@.len() ==> #[trigger] entry_view(r@[i]) == entry_of(
                visible(tree@, 0)[i].0,
                visible(tree@, 0)[i].1,
                opt_text(current_file),
            ),
{
    let flat = tree.flatten(0);
    let ghost vis = visible(tree@, 0);
    assert(flat_view(flat@) == vis);
    assert(flat@.len() == vis.len());
    let mut out: Vec<TreeEntry> = Vec::new();
    let mut i: usize = 0;
    while i < flat.len()
        invariant
            i <= flat@.len(),
            flat_view(flat@) == vis,
            flat@.len() == vis.len(),
            vis == visible(tree@, 0),
            out@.len() == i,
            forall|k: int|
                0 <= k < i ==> #[trigger] entry_view(out@[k]) == entry_of(
                    vis[k].0,
                    vis[k].1,
                    opt_text(current_file),
                ),
        decreases flat@.len() - i,
    {
        let node = flat[i].node;
        let depth = flat[i].depth;
        assert(vis[i as int] == (node@, depth as int));
        let is_current = match current_file {
            Some(cf) => paths_equal(cf, node.path.as_str()),
            None => false,
        };
        let e = TreeEntry {
            name: node.name.clone(),
            path: node.path.clone(),
            depth,
            is_dir: node.is_dir(),
            is_expanded: node.is_expanded(),
            is_current,
        };
        out.push(e);
        i = i + 1;
    }
    out
}

// ---------------------------------------------------------------------------
// Choosing a tree root
// ---------------------------------------------------------------------------
/// The directory of a target: the target itself when it is a directory,
/// else its parent (the target when it has none).
pub open spec fn directory_of(target: Seq<char>, is_dir: bool) -> Seq<char> {
    if is_dir {
        target
    } else {
        match parent_of(target) {
            Some(p) => p,
            None => target,
        }
    }
}

/// The root a tree opens on: the repository root that was found, else the
/// directory itself.
pub open spec fn root_or(git_root: Option<Seq<char>>, dir: Seq<char>) -> Seq<char> {
    match git_root {
        Some(g) => g,
        None => dir,
    }
}

/// The directory that `target` names, for whatever the file system says of
/// whether it is a directory (see `directory_from_answer`).
pub fn directory_for(target: &str) -> (r: String)
    ensures
        exists|is_dir: bool| r@ == #[trigger] directory_of(target@, is_dir),
{
    let is_dir = path_is_dir(target);
    directory_from_answer(target, is_dir)
}

/// The directory that `target` names, given whether it is a directory:
/// the target itself, else its parent (the target when it has none).
pub fn directory_from_answer(target: &str, is_dir: bool) -> (r: String)
    ensures
        r@ == directory_of(target@, is_dir),
{
    if is_dir {
        target.to_owned()
    } else {
        match path_parent(target) {
            Some(p) => p,
            None => target.to_owned(),
        }
    }
}

/// The repository root above `dir`, else `dir`.
pub fn root_for_directory(dir: &str) -> (r: String)
    ensures
        exists|g: Option<Seq<char>>| found_root(dir@, g) && r@ == #[trigger] root_or(g, dir@),
{
    let found = find_git_root(dir);
    match found {
        Some(g) => {
            assert(g@ == root_or(Some(g@), dir@));
            g
        },
        None => {
            let r = dir.to_owned();
            assert(r@ == root_or(None, dir@));
            r
        },
    }
}

/// `new` is a fresh scan of `root`, expanded down to the current file when
/// that file lies under the root; each listing read for a tree that shows
/// hidden entries or not.
pub open spec fn rooted_at(
    new: NodeView,
    root: Seq<char>,
    current: Option<Seq<char>>,
    show_hidden: bool,
) -> bool {
    exists|l: Listing|
        #![trigger scanned_root(root, l)]
        listing_ok(root, show_hidden, l) && match current {
            Some(c) => if path_starts_with(c, root) {
                expanded_lazily(
                    scanned_root(root, l),
                    new,
                    c,
                    descent_bound(scanned_root(root, l), c),
                    show_hidden,
                )
            } else {
                new == scanned_root(root, l)
            },
            None => new == scanned_root(root, l),
        }
}

/// Set a new tree root. If path is a file, uses its parent directory.
/// Resolves to git root if available.
///
/// The tree becomes a fresh scan of the chosen root, expanded down to the
/// current file when that file is under it; the root is returned.
pub fn set_tree_root(
    tree: &mut TreeNode,
    target: &str,
    current_file: Option<&str>,
    show_hidden: bool,
) -> (r: String)
    ensures
        exists|is_dir: bool, g: Option<Seq<char>>|
            found_root(directory_of(target@, is_dir), g) && r@ == #[trigger] root_or(
                g,
                directory_of(target@, is_dir),
            ),
        rooted_at(final(tree)@, r@, opt_text(current_file), show_hidden),
{
    let dir = directory_for(target);
    let root = root_for_directory(dir.as_str());
    *tree = scan_directory(root.as_str(), show_hidden);
    let ghost scanned = tree@;
    if let Some(cf) = current_file {
        if path_has_prefix(cf, root.as_str()) {
            expand_to_path_lazy(tree, cf, show_hidden);
        }
    }
    assert(rooted_at(tree@, root@, opt_text(current_file), show_hidden));
    root
}

/// Re-read the tree from its root; every directory but the root starts
/// collapsed again.
pub fn refresh_tree(tree: &mut TreeNode, show_hidden: bool)
    ensures
        exists|l: Listing|
            final(tree)@ == #[trigger] scanned_root(old(tree)@.path, l) && listing_ok(
                old(tree)@.path,
                show_hidden,
                l,
            ),
{
    let root = tree.path.clone();
    assert(root@ == old(tree)@.path);
    *tree = scan_directory(root.as_str(), show_hidden);
}

// ---------------------------------------------------------------------------
// A document as the desktop viewer shows it
// ---------------------------------------------------------------------------
/// A rendered document with its file name and format.
#[derive(Debug)]
pub struct DocumentResponse {
    pub html: String,
    pub filename: String,
    pub format: String,
}

/// The file name of a path, or nothing when it has none.
pub open spec fn shown_file_name(path: Seq<char>) -> Seq<char> {
    match file_name_of(path) {
        Some(n) => n,
        None => seq![],
    }
}

/// The document read from `path`, rendered (see `render_to_html`), with
/// the path's file name and the name of its format.
pub fn document_response(
    doc: &Document,
    path: &str,
    markdown_body: &str,
    converted: Option<Vec<u8>>,
) -> (r: DocumentResponse)
    ensures
        r.html@ == document_html(
            doc.format,
            doc.source@,
            path@,
            markdown_body@,
            bytes_view(converted),
        ),
        r.filename@ == shown_file_name(path@),
        r.format@ == format_name(doc.format),
{
    let html = render_to_html(doc, path, markdown_body, converted);
    let filename = match path_file_name(path) {
        Some(n) => n,
        None => String::new(),
    };
    DocumentResponse { html, filename, format: doc.format.name() }
}

// ---------------------------------------------------------------------------
// Opening a path
// ---------------------------------------------------------------------------
/// The file a viewer shows first: the path it was started with when that
/// is a file, else the README found in the tree's root (if any).
pub open spec fn first_file(
    path: Option<Seq<char>>,
    path_is_file: bool,
    readme: Option<Seq<char>>,
) -> Option<Seq<char>> {
    match path {
        Some(p) => if path_is_file {
            Some(p)
        } else {
            readme
        },
        None => readme,
    }
}

/// The file a viewer shows first, from the path it was started with,
/// whether that is a file, and the README found (see `first_file`).
pub fn first_file_of(path: Option<&str>, is_file: bool, readme: Option<String>) -> (r: Option<String>)
    ensures
        opt_text_of(r) == first_file(opt_text(path), is_file, opt_text_of(readme)),
{
    match path {
        Some(p) => if is_file {
            Some(p.to_owned())
        } else {
            readme
        },
        None => readme,
    }
}

/// Choose the file a viewer shows first (see `first_file`) and expand the
/// tree down to it.
pub fn initial_file(tree: &mut TreeNode, path: Option<&str>, root: &str, show_hidden: bool) -> (r:
    Option<String>)
    ensures
        exists|is_file: bool, readme: Option<Seq<char>>|
            {
                &&& opt_text_of(r) == #[trigger] first_file(opt_text(path), is_file, readme)
                &&& readme matches Some(q) ==> joined_readme(root@, q)
            },
        match r {
            Some(p) => expanded_lazily(
                old(tree)@,
                final(tree)@,
                p@,
                descent_bound(old(tree)@, p@),
                show_hidden,
            ),
            None => final(tree)@ == old(tree)@,
        },
{
    let is_file = match path {
        Some(p) => path_is_file(p),
        None => false,
    };
    let readme = if path.is_some() && is_file {
        None
    } else {
        find_readme(root)
    };
    let chosen = first_file_of(path, is_file, readme);
    proof {
        assert(readme matches Some(q) ==> joined_readme(root@, q@));
    }
    if let Some(p) = &chosen {
        expand_to_path_lazy(tree, p.as_str(), show_hidden);
    }
    chosen
}

/// Open a directory: the tree becomes a scan of its repository root (else
/// of the directory), and a README found in that root is the document to
/// show.
pub fn open_directory(tree: &mut TreeNode, dir: &str, show_hidden: bool) -> (r: Option<String>)
    ensures
        exists|g: Option<Seq<char>>, l: Listing|
            {
                &&& found_root(dir@, g)
                &&& listing_ok(root_or(g, dir@), show_hidden, l)
                &&& final(tree)@ == #[trigger] scanned_root(root_or(g, dir@), l)
                &&& exists|found: Seq<bool>|
                    found.len() == readme_names().len() && opt_text_of(r)
                        == #[trigger] first_readme(root_or(g, dir@), found)
            },
{
    let root = root_for_directory(dir);
    *tree = scan_directory(root.as_str(), show_hidden);
    let r = find_readme(root.as_str());
    proof {
        let found = choose|found: Seq<bool>|
            found.len() == readme_names().len() && match r {
                Some(p) => #[trigger] first_readme(root@, found) == Some(p@),
                None => first_readme(root@, found) is None,
            };
        assert(opt_text_of(r) == first_readme(root@, found));
    }
    r
}

/// Whether `p` is one of the README names joined to `dir`.
pub open spec fn joined_readme(dir: Seq<char>, p: Seq<char>) -> bool {
    exists|k: int| 0 <= k < readme_names().len() && p == joined(dir, #[trigger] readme_names()[k])
}

/// The root a file is shown under: its repository root, else its parent,
/// else the file itself.
pub open spec fn file_root(file: Seq<char>, git_root: Option<Seq<char>>) -> Seq<char> {
    match git_root {
        Some(g) => g,
        None => match parent_of(file) {
            Some(p) => p,
            None => file,
        },
    }
}

/// Open a file: when the root it belongs under is not the tree's root, the
/// tree becomes a scan of that root expanded down to the file, and the
/// answer is true; otherwise the tree is left as it is.
pub fn reroot_for_file(tree: &mut TreeNode, file: &str, show_hidden: bool) -> (r: bool)
    ensures
        exists|g: Option<Seq<char>>|
            {
                let root = #[trigger] file_root(file@, g);
                &&& found_root(file@, g)
                &&& r == !same_path(root, old(tree)@.path)
                &&& !r ==> final(tree)@ == old(tree)@
                &&& r ==> exists|l: Listing|
                    listing_ok(root, show_hidden, l) && expanded_lazily(
                        #[trigger] scanned_root(root, l),
                        final(tree)@,
                        file@,
                        descent_bound(scanned_root(root, l), file@),
                        show_hidden,
                    )
            },
{
    let ghost mut g: Option<Seq<char>> = None;
    let found = find_git_root(file);
    let root = match found {
        Some(r) => {
            proof {
                g = Some(r@);
            }
            r
        },
        None => match path_parent(file) {
            Some(p) => p,
            None => file.to_owned(),
        },
    };
    assert(root@ == file_root(file@, g));
    if paths_equal(root.as_str(), tree.path.as_str()) {
        return false;
    }
    *tree = scan_directory(root.as_str(), show_hidden);
    let ghost scanned = tree@;
    expand_to_path_lazy(tree, file, show_hidden);
    assert(expanded_lazily(scanned, tree@, file@, descent_bound(scanned, file@), show_hidden));
    true
}

// ---------------------------------------------------------------------------
// Following a link
// ---------------------------------------------------------------------------
/// The text of an optional string.
pub open spec fn opt_text_of(o: Option<String>) -> Option<Seq<char>> {
    match o {
        Some(s) => Some(s@),
        None => None,
    }
}

/// Where a link leads, given what the file system answered: the link
/// itself when it is an absolute path that exists; else the link taken
/// relative to the current file's directory, when that exists; else
/// nowhere in the file system.
pub open spec fn link_target(
    url: Seq<char>,
    absolute_exists: bool,
    current: Option<Seq<char>>,
    relative_exists: bool,
) -> Option<Seq<char>> {
    if absolute_text(url) && absolute_exists {
        Some(url)
    } else {
        match current {
            Some(c) => match parent_of(c) {
                Some(d) => if relative_exists {
                    Some(joined(d, url))
                } else {
                    None
                },
                None => None,
            },
            None => None,
        }
    }
}

/// Resolve a link: if it's a local file, return its path; `None` for a
/// link that names no file here (which the caller hands to a browser).
pub fn resolve_link(url: &str, current_file: Option<&str>) -> (r: Option<String>)
    ensures
        exists|a: bool, b: bool|
            opt_text_of(r) == #[trigger] link_target(url@, a, opt_text(current_file), b),
{
    let absolute_exists = path_is_absolute(url) && path_exists(url);
    let relative_exists = if absolute_exists {
        false
    } else {
        match current_file {
            Some(cur) => match path_parent(cur) {
                Some(dir) => {
                    let resolved = path_join(dir.as_str(), url);
                    path_exists(resolved.as_str())
                },
                None => false,
            },
            None => false,
        }
    };
    link_from_answers(url, absolute_exists, current_file, relative_exists)
}

/// Where a link leads, given the file system's answers to whether it
/// exists as an absolute path and whether it exists taken relative to the
/// current file's directory (see `link_target`).
pub fn link_from_answers(
    url: &str,
    absolute_exists: bool,
    current_file: Option<&str>,
    relative_exists: bool,
) -> (r: Option<String>)
    ensures
        opt_text_of(r) == link_target(url@, absolute_exists, opt_text(current_file), relative_exists),
{
    if path_is_absolute(url) && absolute_exists {
        return Some(url.to_owned());
    }
    match current_file {
        Some(cur) => match path_parent(cur) {
            Some(dir) => if relative_exists {
                Some(path_join(dir.as_str(), url))
            } else {
                None
            },
            None => None,
        },
        None => None,
    }
}

} // verus!
