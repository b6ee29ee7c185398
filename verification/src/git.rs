//! Finding the repository a path belongs to, and the directory a viewer
//! opens on.
use vstd::prelude::*;

use crate::pathname::{
    absolute_text, parent_of, path_is_dir, path_is_file, path_join, path_parent, same_path,
};

verus! {

/// The ancestor `n` steps up from `p` (`p` itself for 0), if the path has
/// that many.
pub open spec fn ancestor_at(p: Seq<char>, n: nat) -> Option<Seq<char>>
    decreases n,
{
    if n == 0 {
        Some(p)
    } else {
        match parent_of(p) {
            Some(q) => ancestor_at(q, (n - 1) as nat),
            None => None,
        }
    }
}

/// Given answers, one per ancestor of `p` from the `n`-th up, to whether
/// it holds a `.git` entry: the first ancestor whose answer is yes.
pub open spec fn first_marked(p: Seq<char>, marks: Seq<bool>, n: int) -> Option<Seq<char>>
    decreases marks.len() - n,
{
    if n < 0 || n >= marks.len() {
        None
    } else if marks[n] {
        ancestor_at(p, n as nat)
    } else {
        first_marked(p, marks, n + 1)
    }
}

/// Answers to whether each ancestor of `p` holds a `.git` entry, as a walk
/// up from `p` asks them: nearest first, up to the first yes or to the top
/// (an ancestor without a parent).
pub open spec fn walk_answers(p: Seq<char>, marks: Seq<bool>) -> bool {
    &&& marks.len() > 0
    &&& forall|j: int| 0 <= j < marks.len() - 1 ==> !#[trigger] marks[j]
    &&& ancestor_at(p, (marks.len() - 1) as nat) is Some
    &&& !marks.last() ==> parent_of(ancestor_at(p, (marks.len() - 1) as nat)->0) is None
}

/// `Path::symlink_metadata` succeeds: something (a directory, a file, a
/// link) is at the path. Asks the file system, so nothing is stated.
#[verifier::external_body]
fn path_has_entry(path: &str) -> bool {
    std::path::Path::new(path).symlink_metadata().is_ok()
}

/// Whether a `.git` entry (a directory, or a file for worktrees and
/// submodules) exists in `dir`.
fn has_git_entry(dir: &str) -> bool {
    let git = path_join(dir, ".git");
    path_has_entry(git.as_str())
}

/// `std::path::absolute`: resolves a relative path against the current
/// directory, which nothing here states; `None` when that fails, which its
/// documentation says happens only for an empty path or when the current
/// directory cannot be had (so never for a non-empty absolute path). What
/// it gives is an absolute path. An absolute path is not resolved against
/// anything: on POSIX platforms its components are collected again (which
/// drops `.` components and repeated separators and keeps `..`), so what
/// comes back is the same path as `Path` compares paths, component by
/// component.
#[verifier::external_body]
fn absolute_path(path: &str) -> (r: Option<String>)
    ensures
        r matches Some(a) ==> absolute_text(a@),
        path@.len() > 0 && absolute_text(path@) ==> r is Some,
        r matches Some(a) ==> (absolute_text(path@) ==> same_path(a@, path@)),
{
    std::path::absolute(path).ok().map(|p| p.to_string_lossy().into_owned())
}

proof fn lemma_ancestor_at_none(p: Seq<char>, n: nat)
    requires
        ancestor_at(p, n) is None,
    ensures
        ancestor_at(p, n + 1) is None,
    decreases n,
{
    if n > 0 {
        if let Some(q) = parent_of(p) {
            lemma_ancestor_at_none(q, (n - 1) as nat);
            assert(ancestor_at(p, n + 1) == ancestor_at(q, n));
        }
    }
}

proof fn lemma_ancestor_at_top(p: Seq<char>, d: Seq<char>, n: nat)
    requires
        ancestor_at(p, n) == Some(d),
        parent_of(d) is None,
    ensures
        ancestor_at(p, n + 1) is None,
    decreases n,
{
    if n > 0 {
        let q = parent_of(p)->0;
        lemma_ancestor_at_top(q, d, (n - 1) as nat);
        assert(ancestor_at(p, n + 1) == ancestor_at(q, n));
    }
}

proof fn lemma_first_marked_none(p: Seq<char>, marks: Seq<bool>, n: int)
    requires
        0 <= n,
        ancestor_at(p, n as nat) is None,
    ensures
        first_marked(p, marks, n) is None,
    decreases marks.len() - n,
{
    if n < marks.len() {
        lemma_ancestor_at_none(p, n as nat);
        lemma_first_marked_none(p, marks, n + 1);
    }
}

/// The first of `start` and its ancestors, nearest first, whose answer is
/// yes, given answers to whether each holds a `.git` entry, one per
/// ancestor from `start` up (see `first_marked`).
pub fn first_marked_ancestor(start: &str, answers: &[bool]) -> (r: Option<String>)
    ensures
        opt_chars_of(r) == first_marked(start@, answers@, 0),
{
    let mut cur: String = start.to_owned();
    let mut k: usize = 0;
    while k < answers.len()
        invariant
            k <= answers@.len(),
            ancestor_at(start@, k as nat) == Some(cur@),
            first_marked(start@, answers@, 0) == first_marked(start@, answers@, k as int),
        decreases answers@.len() - k,
    {
        if answers[k] {
            return Some(cur);
        }
        match path_parent(cur.as_str()) {
            Some(p) => {
                proof {
                    lemma_ancestor_at_step(start@, cur@, p@, k as nat);
                }
                cur = p;
                k = k + 1;
            },
            None => {
                proof {
                    lemma_ancestor_at_top(start@, cur@, k as nat);
                    lemma_first_marked_none(start@, answers@, k + 1);
                }
                return None;
            },
        }
    }
    None
}

/// Asks the file system, for `start` and then each ancestor in turn,
/// whether it holds a `.git` entry, up to the first yes or to the top; the
/// answers, in the order asked.
fn git_answers(start: &str) -> (r: Vec<bool>)
    ensures
        walk_answers(start@, r@),
{
    let mut answers: Vec<bool> = Vec::new();
    let mut cur: String = start.to_owned();
    let mut done = false;
    while !done
        invariant
            ancestor_at(start@, (if done { answers@.len() - 1 } else { answers@.len() as int }) as nat) == Some(cur@),
            done ==> answers@.len() > 0,
            forall|j: int| 0 <= j < answers@.len() && !(done && j == answers@.len() - 1) ==> !#[trigger] answers@[j],
            done && !answers@.last() ==> parent_of(cur@) is None,
        decreases cur@.len(), if done { 0int } else { 1int },
    {
        let yes = has_git_entry(cur.as_str());
        answers.push(yes);
        if yes {
            done = true;
        } else {
            match path_parent(cur.as_str()) {
                Some(p) => {
                    proof {
                        lemma_ancestor_at_step(start@, cur@, p@, (answers@.len() - 1) as nat);
                    }
                    cur = p;
                },
                None => {
                    done = true;
                },
            }
        }
    }
    answers
}

pub open spec fn opt_chars_of(o: Option<String>) -> Option<Seq<char>> {
    match o {
        Some(s) => Some(s@),
        None => None,
    }
}

proof fn lemma_ancestor_at_step(p: Seq<char>, d: Seq<char>, e: Seq<char>, n: nat)
    requires
        ancestor_at(p, n) == Some(d),
        parent_of(d) == Some(e),
    ensures
        ancestor_at(p, n + 1) == Some(e),
    decreases n,
{
    if n == 0 {
        assert(ancestor_at(e, 0) == Some(e));
        assert(ancestor_at(p, 1) == ancestor_at(e, 0));
    } else {
        let q = parent_of(p)->0;
        lemma_ancestor_at_step(q, d, e, (n - 1) as nat);
        assert(ancestor_at(p, n + 1) == ancestor_at(q, n));
    }
}

/// Where the walk up starts from the absolute path `a`: its parent when `a`
/// names a file (none when it has no parent), else `a` itself.
pub open spec fn walk_start(a: Seq<char>, is_file: bool) -> Option<Seq<char>> {
    if is_file {
        parent_of(a)
    } else {
        Some(a)
    }
}

/// The repository root found from the absolute path `a`, given whether it
/// names a file and the answers, from the walk's start up, to whether each
/// ancestor holds a `.git` entry: the first that answered yes.
pub open spec fn git_root_of(a: Seq<char>, is_file: bool, marks: Seq<bool>) -> Option<Seq<char>> {
    match walk_start(a, is_file) {
        Some(s) => first_marked(s, marks, 0),
        None => None,
    }
}

/// `g` is what looking up the repository of `path` gives when `a` is the
/// absolute form of the path (the path itself, compared as paths, when it
/// is absolute), `is_file` the file system's answer to whether `a` is a
/// file, and `marks` its answers on the way up (see `walk_answers`).
pub open spec fn git_found(
    path: Seq<char>,
    a: Seq<char>,
    is_file: bool,
    marks: Seq<bool>,
    g: Option<Seq<char>>,
) -> bool {
    &&& absolute_text(a)
    &&& absolute_text(path) ==> same_path(a, path)
    &&& walk_start(a, is_file) matches Some(s) ==> walk_answers(s, marks)
    &&& g == git_root_of(a, is_file, marks)
}

/// A repository root as `find_git_root` can give it for `path`: found (or
/// not) by a walk up from the absolute form of the path (see `git_found`).
/// Where the path is relative and nothing was found, the current directory
/// decided, and nothing is claimed.
pub open spec fn found_root(path: Seq<char>, g: Option<Seq<char>>) -> bool {
    g is Some || (path.len() > 0 && absolute_text(path)) ==> exists|
        a: Seq<char>,
        is_file: bool,
        marks: Seq<bool>,
    | #[trigger] git_found(path, a, is_file, marks, g)
}

/// The repository root for the absolute path `abs`, given whether it names
/// a file and the answers, from the walk's start up, to whether each
/// ancestor holds a `.git` entry (see `git_root_of`).
pub fn git_root_from(abs: &str, is_file: bool, answers: &[bool]) -> (r: Option<String>)
    ensures
        opt_chars_of(r) == git_root_of(abs@, is_file, answers@),
{
    if is_file {
        match path_parent(abs) {
            Some(p) => first_marked_ancestor(p.as_str(), answers),
            None => None,
        }
    } else {
        first_marked_ancestor(abs, answers)
    }
}

/// Find the git repository root for a given path.
/// Walks up the directory tree checking for a `.git` entry (a directory for
/// ordinary repositories, a file for worktrees and submodules).
/// Relative paths are resolved against the current directory first, so the
/// walk is not cut short at the end of the relative component list.
/// Returns None if the path is not inside a git repository.
///
/// What the file system answers (whether the path is a file, which
/// ancestors hold a `.git` entry) is asked here and decided on by
/// `git_root_from`; see `found_root`.
pub fn find_git_root(path: &str) -> (r: Option<String>)
    ensures
        found_root(path@, opt_chars_of(r)),
{
    let abs = match absolute_path(path) {
        Some(a) => a,
        None => return None,
    };
    let is_file = path_is_file(abs.as_str());
    let start = if is_file {
        path_parent(abs.as_str())
    } else {
        Some(abs.clone())
    };
    let answers = match &start {
        Some(s) => git_answers(s.as_str()),
        None => Vec::new(),
    };
    let r = git_root_from(abs.as_str(), is_file, answers.as_slice());
    assert(git_found(path@, abs@, is_file, answers@, opt_chars_of(r)));
    r
}

/// The directory a path gives to view, given what the file system
/// answered: its repository root; else the path itself when it is a
/// directory; else its parent when that is not empty; else none.
pub open spec fn path_choice(
    path: Option<Seq<char>>,
    path_root: Option<Seq<char>>,
    path_is_dir: bool,
) -> Option<Seq<char>> {
    match path {
        Some(p) => match path_root {
            Some(g) => Some(g),
            None => if path_is_dir {
                Some(p)
            } else {
                match parent_of(p) {
                    Some(d) => if d.len() > 0 {
                        Some(d)
                    } else {
                        None
                    },
                    None => None,
                }
            },
        },
        None => None,
    }
}

/// The directory to view for a path and a current directory, given what
/// the file system answered: the path's choice (see `path_choice`); failing
/// that (or with no path), the current directory's repository root, else
/// the current directory.
pub open spec fn chosen_root(
    path: Option<Seq<char>>,
    path_root: Option<Seq<char>>,
    path_is_dir: bool,
    cwd: Seq<char>,
    cwd_root: Option<Seq<char>>,
) -> Seq<char> {
    match path_choice(path, path_root, path_is_dir) {
        Some(r) => r,
        None => match cwd_root {
            Some(g) => g,
            None => cwd,
        },
    }
}

pub open spec fn opt_text(p: Option<&str>) -> Option<Seq<char>> {
    match p {
        Some(s) => Some(s@),
        None => None,
    }
}

/// The directory a path gives to view, from the answers (see
/// `path_choice`).
fn path_choice_of(path: Option<&str>, path_root: &Option<String>, path_is_dir: bool) -> (r: Option<
    String,
>)
    ensures
        opt_chars_of(r) == path_choice(opt_text(path), opt_chars_of(*path_root), path_is_dir),
{
    match path {
        Some(p) => match path_root {
            Some(g) => Some(g.clone()),
            None => if path_is_dir {
                Some(p.to_owned())
            } else {
                match path_parent(p) {
                    Some(d) => if d.as_str().unicode_len() == 0 {
                        None
                    } else {
                        Some(d)
                    },
                    None => None,
                }
            },
        },
        None => None,
    }
}

/// The directory to view, from the path, whether it is a directory, the
/// repository roots found for it and for the current directory, and the
/// current directory (see `chosen_root`).
pub fn choose_root(
    path: Option<&str>,
    path_root: Option<String>,
    path_is_dir: bool,
    cwd: &str,
    cwd_root: Option<String>,
) -> (r: String)
    ensures
        r@ == chosen_root(
            opt_text(path),
            opt_chars_of(path_root),
            path_is_dir,
            cwd@,
            opt_chars_of(cwd_root),
        ),
{
    match path_choice_of(path, &path_root, path_is_dir) {
        Some(r) => r,
        None => match cwd_root {
            Some(g) => g,
            None => cwd.to_owned(),
        },
    }
}

/// Resolve the root directory for viewing.
/// Tries git root first, then falls back to the path's parent or `cwd`
/// (the current directory, which the caller supplies).
///
/// The answer is `chosen_root` for the repository roots `find_git_root`
/// found (see `found_root`) and what the file system said of the path being
/// a directory; the path is asked about only when no root was found for it,
/// and the current directory only when the path gives no choice.
pub fn resolve_root(path: Option<&str>, cwd: &str) -> (r: String)
    ensures
        exists|path_root: Option<Seq<char>>, path_is_dir: bool, cwd_root: Option<Seq<char>>|
            {
                &&& opt_text(path) matches Some(p) ==> found_root(p, path_root)
                &&& path_choice(opt_text(path), path_root, path_is_dir) is None ==> found_root(
                    cwd@,
                    cwd_root,
                )
                &&& r@ == #[trigger] chosen_root(
                    opt_text(path),
                    path_root,
                    path_is_dir,
                    cwd@,
                    cwd_root,
                )
            },
{
    let path_root = match path {
        Some(p) => find_git_root(p),
        None => None,
    };
    let path_is_dir = match path {
        Some(p) => if path_root.is_none() {
            path_is_dir(p)
        } else {
            false
        },
        None => false,
    };
    let from_path = path_choice_of(path, &path_root, path_is_dir);
    let cwd_root = if from_path.is_none() {
        find_git_root(cwd)
    } else {
        None
    };
    choose_root(path, path_root, path_is_dir, cwd, cwd_root)
}

} // verus!
