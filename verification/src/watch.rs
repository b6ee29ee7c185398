//! Watching expanded directories for changes: which directories are
//! watched, and which of them a batch of file-system events touched.
use vstd::prelude::*;

use notify::Watcher;

use crate::pathname::{parent_of, path_eq, path_parent, paths_equal};
use crate::tree::{view_is_expanded, TreeNode};
use crate::tree_fs::{
    collect_expanded_dirs, expanded_dirs, listing_ok, Listing, find_node, lazy_toggled, locate, node_at, replace_at,
    strings_view, toggle_at_path_lazy, opened_along, lemma_dirs_replace, lemma_locate_replace,
};

verus! {

#[verifier::external_type_specification]
#[verifier::external_body]
pub struct ExRecommendedWatcher(notify::RecommendedWatcher);

/// `Watcher::watch` with `RecursiveMode::NonRecursive`: asks the platform to
/// report changes to the immediate entries of `dir`. Whether the platform
/// agreed is the answer, and nothing is stated of it.
#[verifier::external_body]
fn start_watching(w: &mut notify::RecommendedWatcher, dir: &str) -> bool {
    w.watch(std::path::Path::new(dir), notify::RecursiveMode::NonRecursive).is_ok()
}

/// `Watcher::unwatch`; its outcome is not used.
#[verifier::external_body]
fn stop_watching(w: &mut notify::RecommendedWatcher, dir: &str) {
    let _ = w.unwatch(std::path::Path::new(dir));
}

/// Whether some path of `ds` is the same path as `p`.
pub open spec fn holds_path(ds: Seq<Seq<char>>, p: Seq<char>) -> bool {
    exists|i: int| 0 <= i < ds.len() && path_eq(#[trigger] ds[i], p)
}

/// Whether no two paths of `ds` are the same path.
pub open spec fn distinct_paths(ds: Seq<Seq<char>>) -> bool {
    forall|i: int, j: int| 0 <= i < j < ds.len() ==> !path_eq(#[trigger] ds[i], #[trigger] ds[j])
}

/// Index of the first path of `ds`, from `i` on, that is the same path as `p`.
pub open spec fn first_same(ds: Seq<Seq<char>>, p: Seq<char>, i: int) -> Option<int>
    decreases ds.len() - i,
{
    if i < 0 || i >= ds.len() {
        None
    } else if path_eq(ds[i], p) {
        Some(i)
    } else {
        first_same(ds, p, i + 1)
    }
}

proof fn lemma_first_same(ds: Seq<Seq<char>>, p: Seq<char>, i: int)
    requires
        0 <= i,
    ensures
        match first_same(ds, p, i) {
            Some(f) => i <= f < ds.len() && path_eq(ds[f], p) && forall|k: int|
                i <= k < f ==> !path_eq(#[trigger] ds[k], p),
            None => forall|k: int| i <= k < ds.len() ==> !path_eq(#[trigger] ds[k], p),
        },
    decreases ds.len() - i,
{
    if i < ds.len() && !path_eq(ds[i], p) {
        lemma_first_same(ds, p, i + 1);
    }
}

/// Whether one of `list` is the same path as `p`.
fn contains_path(list: &[String], p: &str) -> (r: bool)
    ensures
        r == holds_path(strings_view(list@), p@),
{
    let ghost lv = strings_view(list@);
    let mut i: usize = 0;
    while i < list.len()
        invariant
            i <= list@.len(),
            lv == strings_view(list@),
            forall|k: int| 0 <= k < i ==> !path_eq(#[trigger] lv[k], p@),
        decreases list@.len() - i,
    {
        assert(lv[i as int] == list@[i as int]@);
        if paths_equal(list[i].as_str(), p) {
            return true;
        }
        i = i + 1;
    }
    false
}

/// The watched directories after a request to watch `dir`: unchanged when
/// `dir` is already watched (the platform is then not asked); otherwise
/// with `dir` added when the platform accepted the watch.
pub open spec fn after_watch(w: Seq<Seq<char>>, dir: Seq<char>, accepted: bool) -> Seq<Seq<char>> {
    if holds_path(w, dir) {
        w
    } else if accepted {
        w.push(dir)
    } else {
        w
    }
}

/// Whether request `i` asked to watch `d` and the platform refused it.
pub open spec fn refused_at(log: Seq<(Seq<char>, bool)>, i: int, d: Seq<char>) -> bool {
    log[i].0 == d && !log[i].1
}

/// Whether the platform refused a watch on `d` in one of the requests from
/// the `n`-th on.
pub open spec fn refused_since(log: Seq<(Seq<char>, bool)>, n: int, d: Seq<char>) -> bool {
    exists|i: int| n <= i && i < log.len() && #[trigger] refused_at(log, i, d)
}

/// A refusal logged stays logged when one more request is logged.
proof fn lemma_refused_grow(q0: Seq<(Seq<char>, bool)>, x: (Seq<char>, bool), n: int, d: Seq<char>)
    requires
        0 <= n,
        refused_since(q0, n, d),
    ensures
        refused_since(q0.push(x), n, d),
{
    let q1 = q0.push(x);
    let j = choose|j: int| n <= j && j < q0.len() && #[trigger] refused_at(q0, j, d);
    assert(q1[j] == q0[j]);
    assert(refused_at(q1, j, d));
}

/// A watched directory stays watched when one more is added.
proof fn lemma_holds_push(w: Seq<Seq<char>>, d: Seq<char>, x: Seq<char>)
    requires
        holds_path(w, d),
    ensures
        holds_path(w.push(x), d),
{
    let i = choose|i: int| 0 <= i < w.len() && path_eq(#[trigger] w[i], d);
    assert(w.push(x)[i] == w[i]);
}

/// Once a directory is watched (it was already, or the platform accepted
/// it), asking to watch it again changes nothing, whatever the platform
/// would answer.
pub proof fn lemma_watch_twice(w: Seq<Seq<char>>, dir: Seq<char>, first: bool, second: bool)
    requires
        holds_path(w, dir) || first,
    ensures
        after_watch(after_watch(w, dir, first), dir, second) == after_watch(w, dir, first),
{
    let w1 = after_watch(w, dir, first);
    if !holds_path(w, dir) {
        assert(w1 == w.push(dir));
        assert(w1[w.len() as int] == dir);
        assert(path_eq(w1[w.len() as int], dir));
    }
    assert(holds_path(w1, dir));
}

/// Handle for managing filesystem watches on expanded directories.
pub struct WatcherHandle {
    watcher: notify::RecommendedWatcher,
    pub watched_dirs: Vec<String>,
    /// Every request made of the platform to watch a directory, in order,
    /// with whether the platform accepted it.
    requests: Ghost<Seq<(Seq<char>, bool)>>,
    /// Every directory the platform was told to stop watching, in order.
    releases: Ghost<Seq<Seq<char>>>,
}

impl WatcherHandle {
    /// The watched directories, as paths.
    pub closed spec fn watched(&self) -> Seq<Seq<char>> {
        strings_view(self.watched_dirs@)
    }

    /// The platform watcher the handle drives.
    pub closed spec fn platform_watcher(&self) -> notify::RecommendedWatcher {
        self.watcher
    }

    /// The requests made of the platform to watch a directory, in order,
    /// with the platform's answers.
    pub closed spec fn requests(&self) -> Seq<(Seq<char>, bool)> {
        self.requests@
    }

    /// The directories the platform was told to stop watching, in order.
    pub closed spec fn releases(&self) -> Seq<Seq<char>> {
        self.releases@
    }

    /// A handle on a platform watcher, watching nothing yet.
    pub fn new(watcher: notify::RecommendedWatcher) -> (r: WatcherHandle)
        ensures
            r.platform_watcher() == watcher,
            r.watched() == Seq::<Seq<char>>::empty(),
            r.requests() == Seq::<(Seq<char>, bool)>::empty(),
            r.releases() == Seq::<Seq<char>>::empty(),
    {
        let r = WatcherHandle {
            watcher,
            watched_dirs: Vec::new(),
            requests: Ghost(Seq::empty()),
            releases: Ghost(Seq::empty()),
        };
        assert(r.watched() =~= Seq::<Seq<char>>::empty());
        r
    }

    /// Record the platform's answer to a request to watch `dir`: the
    /// request is logged, and the directory is watched when it was accepted.
    fn record_request(&mut self, dir: &str, accepted: bool)
        requires
            distinct_paths(old(self).watched()) ==> !holds_path(old(self).watched(), dir@),
        ensures
            final(self).requests() == old(self).requests().push((dir@, accepted)),
            final(self).watched() == if accepted {
                old(self).watched().push(dir@)
            } else {
                old(self).watched()
            },
            final(self).platform_watcher() == old(self).platform_watcher(),
            final(self).releases() == old(self).releases(),
            distinct_paths(old(self).watched()) ==> distinct_paths(final(self).watched()),
    {
        proof {
            self.requests@ = self.requests@.push((dir@, accepted));
        }
        if accepted {
            let ghost before = self.watched_dirs@;
            self.watched_dirs.push(dir.to_owned());
            proof {
                assert(strings_view(self.watched_dirs@) =~= strings_view(before).push(dir@));
                let w = strings_view(self.watched_dirs@);
                if distinct_paths(strings_view(before)) {
                    assert forall|i: int, j: int| 0 <= i < j < w.len() implies !path_eq(
                        #[trigger] w[i],
                        #[trigger] w[j],
                    ) by {
                        if j == w.len() - 1 {
                            assert(w[i] == strings_view(before)[i]);
                            if path_eq(w[i], w[j]) {
                                assert(holds_path(strings_view(before), dir@));
                            }
                        } else {
                            assert(w[i] == strings_view(before)[i]);
                            assert(w[j] == strings_view(before)[j]);
                        }
                    }
                }
            }
        }
    }

    /// Start watching a directory (non-recursive, immediate children only).
    ///
    /// A directory already watched is left alone and the platform is not
    /// asked; otherwise the platform is asked to watch it (the request and
    /// its answer are logged) and the directory is recorded exactly when the
    /// platform accepted (see `after_watch`).
    pub fn watch(&mut self, dir: &str)
        ensures
            holds_path(old(self).watched(), dir@) ==> final(self).requests() == old(self).requests(),
            !holds_path(old(self).watched(), dir@) ==> final(self).requests() == old(
                self,
            ).requests().push((dir@, final(self).requests().last().1)),
            final(self).watched() == after_watch(
                old(self).watched(),
                dir@,
                final(self).requests().last().1,
            ),
            final(self).releases() == old(self).releases(),
            distinct_paths(old(self).watched()) ==> distinct_paths(final(self).watched()),
    {
        if contains_path(self.watched_dirs.as_slice(), dir) {
            return;
        }
        let accepted = start_watching(&mut self.watcher, dir);
        self.record_request(dir, accepted);
    }

    /// Stop watching a directory: the first watched path that is the same
    /// path as `dir` is dropped and the platform is told to stop watching
    /// `dir` (its answer is not used); a directory not watched is left
    /// alone.
    pub fn unwatch(&mut self, dir: &str)
        ensures
            match first_same(old(self).watched(), dir@, 0) {
                Some(i) => final(self).watched() == old(self).watched().remove(i)
                    && final(self).releases() == old(self).releases().push(dir@),
                None => final(self).watched() == old(self).watched() && final(self).releases()
                    == old(self).releases(),
            },
            distinct_paths(old(self).watched()) ==> distinct_paths(final(self).watched()),
            final(self).requests() == old(self).requests(),
    {
        let ghost w0 = self.watched();
        let mut i: usize = 0;
        while i < self.watched_dirs.len()
            invariant
                i <= self.watched_dirs@.len(),
                w0 == strings_view(self.watched_dirs@),
                w0 == old(self).watched(),
                self.requests() == old(self).requests(),
                self.releases() == old(self).releases(),
                first_same(w0, dir@, 0) == first_same(w0, dir@, i as int),
            decreases self.watched_dirs@.len() - i,
        {
            assert(w0[i as int] == self.watched_dirs@[i as int]@);
            if paths_equal(self.watched_dirs[i].as_str(), dir) {
                assert(first_same(w0, dir@, i as int) == Some(i as int));
                let ghost before = self.watched_dirs@;
                self.watched_dirs.remove(i);
                proof {
                    assert(strings_view(self.watched_dirs@) =~= w0.remove(i as int));
                    let w = w0.remove(i as int);
                    if distinct_paths(w0) {
                        assert forall|a: int, b: int| 0 <= a < b < w.len() implies !path_eq(
                            #[trigger] w[a],
                            #[trigger] w[b],
                        ) by {
                            let a0 = if a < i { a } else { a + 1 };
                            let b0 = if b < i { b } else { b + 1 };
                            assert(w[a] == w0[a0]);
                            assert(w[b] == w0[b0]);
                        }
                    }
                }
                let ghost after = self.watched_dirs@;
                stop_watching(&mut self.watcher, dir);
                proof {
                    self.releases@ = self.releases@.push(dir@);
                }
                assert(self.watched_dirs@ == after);
                return;
            }
            i = i + 1;
        }
    }

    /// Stop watching all directories: the platform is told to stop watching
    /// each watched directory, in order, and none is watched afterwards.
    pub fn unwatch_all(&mut self)
        ensures
            final(self).watched() == Seq::<Seq<char>>::empty(),
            final(self).requests() == old(self).requests(),
            final(self).releases() == old(self).releases() + old(self).watched(),
    {
        let mut i: usize = 0;
        while i < self.watched_dirs.len()
            invariant
                i <= self.watched_dirs@.len(),
                self.watched() == old(self).watched(),
                self.requests() == old(self).requests(),
                self.releases() == old(self).releases() + old(self).watched().take(i as int),
            decreases self.watched_dirs@.len() - i,
        {
            stop_watching(&mut self.watcher, self.watched_dirs[i].as_str());
            proof {
                let w = old(self).watched();
                assert(w[i as int] == self.watched_dirs@[i as int]@);
                assert(w.take(i + 1) =~= w.take(i as int).push(w[i as int]));
                self.releases@ = self.releases@.push(self.watched_dirs@[i as int]@);
            }
            i = i + 1;
        }
        assert(old(self).watched().take(i as int) =~= old(self).watched());
        self.watched_dirs.clear();
        assert(self.watched() =~= Seq::<Seq<char>>::empty());
    }
}

// ---------------------------------------------------------------------------
// Events
// ---------------------------------------------------------------------------
/// The kinds of file-system events the platform watcher reports.
#[derive(Clone, Copy, Debug, PartialEq, Eq, Structural)]
pub enum ChangeKind {
    /// Unknown or unsupported events.
    Any,
    /// Non-mutating access.
    Access,
    Create,
    Modify,
    Remove,
    /// Meta-events about the watch itself.
    Other,
}

/// Whether events of this kind change what a directory holds.
pub open spec fn content_changing(k: ChangeKind) -> bool {
    k == ChangeKind::Create || k == ChangeKind::Modify || k == ChangeKind::Remove
}

/// Check if an event kind represents a change that affects directory contents.
/// Filters out Access and Other events to avoid feedback loops when we read
/// directories during refresh.
pub fn is_content_change(kind: ChangeKind) -> (r: bool)
    ensures
        r == content_changing(kind),
{
    match kind {
        ChangeKind::Create | ChangeKind::Remove | ChangeKind::Modify => true,
        _ => false,
    }
}

/// One file-system event: its kind and the paths it concerns.
pub struct WatchEvent {
    pub kind: ChangeKind,
    pub paths: Vec<String>,
}

pub open spec fn event_path(events: Seq<WatchEvent>, e: int, j: int) -> Seq<char> {
    events[e].paths@[j]@
}

/// Whether path `j` of event `e` changes the contents of a watched
/// directory: the event changes contents and the path's parent is watched.
pub open spec fn touches_watched(
    events: Seq<WatchEvent>,
    watched: Seq<Seq<char>>,
    e: int,
    j: int,
) -> bool {
    &&& content_changing(events[e].kind)
    &&& parent_of(event_path(events, e, j)) is Some
    &&& holds_path(watched, parent_of(event_path(events, e, j))->0)
}

/// Whether `p` is the parent of a path that touches a watched directory.
pub open spec fn changed_parent(events: Seq<WatchEvent>, watched: Seq<Seq<char>>, p: Seq<char>) -> bool {
    exists|e: int, j: int|
        0 <= e < events.len() && 0 <= j < events[e].paths@.len() && #[trigger] touches_watched(
            events,
            watched,
            e,
            j,
        ) && parent_of(event_path(events, e, j)) == Some(p)
}

/// The watched directories whose contents the events changed, each once
/// (the same directory named twice counts once; the first naming is kept).
pub fn changed_dirs(events: &[WatchEvent], watched: &[String]) -> (r: Vec<String>)
    ensures
        distinct_paths(strings_view(r@)),
        forall|k: int|
            0 <= k < r@.len() ==> changed_parent(events@, strings_view(watched@), #[trigger] r@[k]@),
        forall|e: int, j: int|
            0 <= e < events@.len() && 0 <= j < events@[e].paths@.len() && #[trigger] touches_watched(
                events@,
                strings_view(watched@),
                e,
                j,
            ) ==> holds_path(
                strings_view(r@),
                parent_of(event_path(events@, e, j))->0,
            ),
{
    let ghost ev = events@;
    let ghost wv = strings_view(watched@);
    let mut out: Vec<String> = Vec::new();
    let mut e: usize = 0;
    while e < events.len()
        invariant
            e <= ev.len(),
            ev == events@,
            wv == strings_view(watched@),
            distinct_paths(strings_view(out@)),
            forall|k: int|
                0 <= k < out@.len() ==> changed_parent(ev, wv, #[trigger] out@[k]@),
            forall|e2: int, j2: int|
                0 <= e2 < e && 0 <= j2 < ev[e2].paths@.len() && #[trigger] touches_watched(
                    ev,
                    wv,
                    e2,
                    j2,
                ) ==> holds_path(strings_view(out@), parent_of(event_path(ev, e2, j2))->0),
        decreases ev.len() - e,
    {
        let ev_e = &events[e];
        if is_content_change(ev_e.kind) {
            let mut j: usize = 0;
            while j < ev_e.paths.len()
                invariant
                    e < ev.len(),
                    j <= ev[e as int].paths@.len(),
                    ev == events@,
                    *ev_e == ev[e as int],
                    content_changing(ev[e as int].kind),
                    wv == strings_view(watched@),
                    distinct_paths(strings_view(out@)),
                    forall|k: int|
                        0 <= k < out@.len() ==> changed_parent(ev, wv, #[trigger] out@[k]@),
                    forall|e2: int, j2: int|
                        ((0 <= e2 < e && 0 <= j2 < ev[e2].paths@.len()) || (e2 == e && 0 <= j2 < j))
                            && #[trigger] touches_watched(ev, wv, e2, j2) ==> holds_path(
                            strings_view(out@),
                            parent_of(event_path(ev, e2, j2))->0,
                        ),
                decreases ev[e as int].paths@.len() - j,
            {
                let ghost pth = event_path(ev, e as int, j as int);
                assert(pth == ev_e.paths@[j as int]@);
                match path_parent(ev_e.paths[j].as_str()) {
                    Some(p) => {
                        if contains_path(watched, p.as_str()) && !contains_path(
                            out.as_slice(),
                            p.as_str(),
                        ) {
                            let ghost before = out@;
                            out.push(p);
                            proof {
                                let ov = strings_view(out@);
                                let bv = strings_view(before);
                                assert(ov =~= bv.push(p@));
                                assert(touches_watched(ev, wv, e as int, j as int));
                                assert forall|a: int, b: int| 0 <= a < b < ov.len() implies !path_eq(
                                    #[trigger] ov[a],
                                    #[trigger] ov[b],
                                ) by {
                                    assert(ov[a] == bv[a]);
                                    if b < bv.len() {
                                        assert(ov[b] == bv[b]);
                                    } else {
                                        if path_eq(ov[a], ov[b]) {
                                            assert(holds_path(bv, p@));
                                        }
                                    }
                                }
                                assert forall|k: int| 0 <= k < out@.len() implies changed_parent(
                                    ev,
                                    wv,
                                    #[trigger] out@[k]@,
                                ) by {
                                    if k < before.len() {
                                        assert(out@[k] == before[k]);
                                    }
                                }
                                assert forall|e2: int, j2: int|
                                    ((0 <= e2 < e && 0 <= j2 < ev[e2].paths@.len()) || (e2 == e && 0
                                        <= j2 < j + 1)) && #[trigger] touches_watched(
                                        ev,
                                        wv,
                                        e2,
                                        j2,
                                    ) implies holds_path(
                                    ov,
                                    parent_of(event_path(ev, e2, j2))->0,
                                ) by {
                                    if e2 == e && j2 == j {
                                        assert(path_eq(ov[ov.len() - 1], p@));
                                    } else {
                                        let x = parent_of(event_path(ev, e2, j2))->0;
                                        let w = choose|w: int| 0 <= w < bv.len() && path_eq(bv[w], x);
                                        assert(ov[w] == bv[w]);
                                    }
                                }
                            }
                        } else {
                            proof {
                                let ov = strings_view(out@);
                                assert forall|e2: int, j2: int|
                                    ((0 <= e2 < e && 0 <= j2 < ev[e2].paths@.len()) || (e2 == e && 0
                                        <= j2 < j + 1)) && #[trigger] touches_watched(
                                        ev,
                                        wv,
                                        e2,
                                        j2,
                                    ) implies holds_path(
                                    ov,
                                    parent_of(event_path(ev, e2, j2))->0,
                                ) by {
                                    if e2 == e && j2 == j {
                                        assert(holds_path(ov, p@));
                                    }
                                }
                            }
                        }
                    },
                    None => {},
                }
                j = j + 1;
            }
        }
        e = e + 1;
    }
    out
}


// ---------------------------------------------------------------------------
// Keeping the watches in step with the tree
// ---------------------------------------------------------------------------
/// The directories asked for in the watch requests from the `n`-th on, in
/// order.
pub open spec fn requested_since(log: Seq<(Seq<char>, bool)>, n: int) -> Seq<Seq<char>> {
    log.subrange(n, log.len() as int).map_values(|q: (Seq<char>, bool)| q.0)
}

/// Synchronize a watcher with the current tree state:
/// unwatch everything, then watch all expanded directories.
///
/// The platform is first told to stop watching every directory watched
/// before; then, when no two expanded directories are the same path, it is
/// asked to watch exactly the expanded directories, in order. Afterwards
/// only expanded directories are watched, each once, and every expanded
/// directory is watched unless the platform refused the request to watch
/// it.
pub fn sync_watcher(tree: &TreeNode, handle: &mut WatcherHandle)
    ensures
        final(handle).releases() == old(handle).releases() + old(handle).watched(),
        final(handle).requests().take(old(handle).requests().len() as int) == old(handle).requests(),
        distinct_paths(expanded_dirs(tree@)) ==> requested_since(
            final(handle).requests(),
            old(handle).requests().len() as int,
        ) == expanded_dirs(tree@),
        distinct_paths(final(handle).watched()),
        forall|k: int|
            0 <= k < final(handle).watched().len() ==> expanded_dirs(tree@).contains(
                #[trigger] final(handle).watched()[k],
            ),
        forall|k: int|
            0 <= k < expanded_dirs(tree@).len() ==> holds_path(
                final(handle).watched(),
                #[trigger] expanded_dirs(tree@)[k],
            ) || refused_since(
                final(handle).requests(),
                old(handle).requests().len() as int,
                expanded_dirs(tree@)[k],
            ),
{
    handle.unwatch_all();
    let dirs = collect_expanded_dirs(tree);
    let ghost dv = strings_view(dirs@);
    let ghost n0 = old(handle).requests().len() as int;
    let mut i: usize = 0;
    while i < dirs.len()
        invariant
            i <= dirs@.len(),
            dv == strings_view(dirs@),
            dv == expanded_dirs(tree@),
            n0 <= handle.requests().len(),
            n0 == old(handle).requests().len(),
            handle.releases() == old(handle).releases() + old(handle).watched(),
            handle.requests().take(n0) == old(handle).requests(),
            distinct_paths(dv) ==> requested_since(handle.requests(), n0) == dv.take(i as int),
            distinct_paths(dv) ==> forall|k: int|
                0 <= k < handle.watched().len() ==> dv.take(i as int).contains(
                    #[trigger] handle.watched()[k],
                ),
            distinct_paths(handle.watched()),
            forall|k: int|
                0 <= k < handle.watched().len() ==> dv.contains(#[trigger] handle.watched()[k]),
            forall|k: int|
                0 <= k < i ==> holds_path(handle.watched(), #[trigger] dv[k]) || refused_since(
                    handle.requests(),
                    n0,
                    dv[k],
                ),
        decreases dirs@.len() - i,
    {
        let ghost w0 = handle.watched();
        let ghost q0 = handle.requests();
        assert(dv[i as int] == dirs@[i as int]@);
        proof {
            if distinct_paths(dv) && holds_path(w0, dv[i as int]) {
                let k = choose|k: int| 0 <= k < w0.len() && path_eq(#[trigger] w0[k], dv[i as int]);
                assert(dv.take(i as int).contains(w0[k]));
                let j = choose|j: int| 0 <= j < i && dv.take(i as int)[j] == w0[k];
                assert(dv[j] == w0[k]);
                assert(!path_eq(dv[j], dv[i as int]));
            }
        }
        handle.watch(dirs[i].as_str());
        proof {
            let w1 = handle.watched();
            let q1 = handle.requests();
            let d = dv[i as int];
            assert(q1.take(n0) =~= q0.take(n0));
            if distinct_paths(dv) {
                assert(!holds_path(w0, d));
                assert(requested_since(q1, n0) =~= requested_since(q0, n0).push(d));
                assert(dv.take(i + 1) =~= dv.take(i as int).push(d));
                assert forall|k: int| 0 <= k < w1.len() implies dv.take(i + 1).contains(
                    #[trigger] w1[k],
                ) by {
                    if k < w0.len() {
                        assert(w1[k] == w0[k]);
                        let j = choose|j: int| 0 <= j < i && dv.take(i as int)[j] == w0[k];
                        assert(dv.take(i + 1)[j] == w0[k]);
                    } else {
                        assert(w1[k] == d);
                        assert(dv.take(i + 1)[i as int] == d);
                    }
                }
            }
            assert forall|k: int| 0 <= k < w1.len() implies dv.contains(#[trigger] w1[k]) by {
                if k < w0.len() {
                    assert(w1[k] == w0[k]);
                } else {
                    assert(w1[k] == dv[i as int]);
                }
            }
            assert forall|k: int| 0 <= k < i + 1 implies holds_path(w1, #[trigger] dv[k])
                || refused_since(q1, n0, dv[k]) by {
                if k < i {
                    if holds_path(w0, dv[k]) {
                        if w1 != w0 {
                            lemma_holds_push(w0, dv[k], d);
                        }
                    } else {
                        let j = choose|j: int| n0 <= j && j < q0.len() && #[trigger] refused_at(q0, j, dv[k]);
                        assert(q1[j] == q0[j]);
                        assert(refused_at(q1, j, dv[k]));
                    }
                } else {
                    if !holds_path(w0, d) {
                        if q1.last().1 {
                            assert(w1 == w0.push(d));
                            assert(w1[w0.len() as int] == d);
                            assert(path_eq(w1[w0.len() as int], d));
                        } else {
                            assert(q1[q0.len() as int] == (d, false));
                                        assert(refused_at(q1, q0.len() as int, d));
                        }
                    }
                }
            }
        }
        i = i + 1;
    }
    assert(dv.take(i as int) =~= dv);
}

/// The expanded directories at and below the node the target names (none
/// when no node has that path).
pub open spec fn expanded_dirs_at(v: crate::tree::NodeView, t: Seq<char>) -> Seq<Seq<char>> {
    match locate(v, t) {
        Some(ix) => expanded_dirs(node_at(v, ix)),
        None => seq![],
    }
}

/// The watched directories are the expanded ones of `v`: each watched
/// directory is expanded, and each expanded one is watched (as the same
/// path).
pub open spec fn watches_expanded(w: Seq<Seq<char>>, v: crate::tree::NodeView) -> bool {
    &&& forall|k: int| 0 <= k < w.len() ==> expanded_dirs(v).contains(#[trigger] w[k])
    &&& forall|k: int|
        0 <= k < expanded_dirs(v).len() ==> holds_path(w, #[trigger] expanded_dirs(v)[k])
}

/// Whether no two paths of `ds`, at different places, are the same path.
pub open spec fn paths_apart(ds: Seq<Seq<char>>) -> bool {
    forall|i: int, j: int|
        0 <= i < ds.len() && 0 <= j < ds.len() && i != j ==> !path_eq(#[trigger] ds[i], #[trigger] ds[j])
}

/// Whether every directory above the node at path `t` (if any) is expanded.
pub open spec fn opened_to(v: crate::tree::NodeView, t: Seq<char>) -> bool {
    locate(v, t) matches Some(ix) ==> opened_along(v, ix)
}

/// Whether the platform accepted every watch request from the `n`-th on.
pub open spec fn accepted_since(log: Seq<(Seq<char>, bool)>, n: int) -> bool {
    forall|i: int| n <= i < log.len() ==> #[trigger] log[i].1
}

/// After a toggle as `toggle_at_path_watched` carries it out, the watched
/// directories that were the expanded ones are the expanded ones again,
/// given the conditions stated there.
proof fn lemma_toggle_watches(
    v0: crate::tree::NodeView,
    v1: crate::tree::NodeView,
    t: Seq<char>,
    w0: Seq<Seq<char>>,
    w1: Seq<Seq<char>>,
    log: Seq<(Seq<char>, bool)>,
    n0: int,
)
    requires
        watches_expanded(w0, v0),
        distinct_paths(w0),
        paths_apart(expanded_dirs(v0)),
        opened_to(v0, t),
        0 <= n0,
        accepted_since(log, n0),
        match locate(v0, t) {
            None => v1 == v0 && w1 == w0,
            Some(ix) => exists|l: Listing|
                #![trigger lazy_toggled(node_at(v0, ix), l)]
                v1 == replace_at(v0, ix, lazy_toggled(node_at(v0, ix), l)),
        },
        forall|k: int|
            0 <= k < w1.len() ==> w0.contains(#[trigger] w1[k]) || expanded_dirs_at(v1, t).contains(
                w1[k],
            ),
        forall|k: int|
            0 <= k < w0.len() ==> w1.contains(#[trigger] w0[k]) || exists|d: Seq<char>|
                expanded_dirs_at(v0, t).contains(d) && path_eq(w0[k], d),
        forall|k: int|
            0 <= k < expanded_dirs_at(v1, t).len() ==> holds_path(
                w1,
                #[trigger] expanded_dirs_at(v1, t)[k],
            ) || refused_since(log, n0, expanded_dirs_at(v1, t)[k]),
        distinct_paths(w0) && locate(v1, t) is Some && expanded_dirs_at(v1, t).len() == 0
            ==> forall|j: int, k: int|
            0 <= j < expanded_dirs_at(v0, t).len() && 0 <= k < w1.len() ==> #[trigger] w1[k]
                != #[trigger] expanded_dirs_at(v0, t)[j],
    ensures
        watches_expanded(w1, v1),
{
    match locate(v0, t) {
        None => {},
        Some(ix) => {
            let l = choose|l: Listing|
                v1 == replace_at(v0, ix, #[trigger] lazy_toggled(node_at(v0, ix), l));
            let n0v = node_at(v0, ix);
            let n1v = lazy_toggled(n0v, l);
            lemma_locate_replace(v0, t, n1v);
            assert(locate(v1, t) == Some(ix));
            assert(expanded_dirs_at(v1, t) == expanded_dirs(n1v));
            assert(expanded_dirs_at(v0, t) == expanded_dirs(n0v));
            let (pre, post) = lemma_dirs_replace(v0, ix, n1v);
            let e0 = expanded_dirs(v0);
            let e1 = expanded_dirs(v1);
            let m0 = expanded_dirs(n0v);
            let m1 = expanded_dirs(n1v);
            let collapsing = view_is_expanded(n0v);
            if collapsing {
                assert(m1 =~= seq![]);
            } else {
                assert(m0 =~= seq![]);
            }
            assert forall|k: int| 0 <= k < w1.len() implies e1.contains(#[trigger] w1[k]) by {
                if w0.contains(w1[k]) {
                    let m = choose|m: int| 0 <= m < w0.len() && w0[m] == w1[k];
                    assert(e0.contains(w0[m]));
                    let a = choose|a: int| 0 <= a < e0.len() && e0[a] == w0[m];
                    if a < pre.len() {
                        assert(e1[a] == e0[a]);
                    } else if a < pre.len() + m0.len() {
                        assert(collapsing);
                        assert(w1[k] != m0[a - pre.len()]);
                        assert(e0[a] == m0[a - pre.len()]);
                    } else {
                        let b = a - m0.len() + m1.len();
                        assert(e1[b] == e0[a]);
                    }
                } else {
                    let j = choose|j: int| 0 <= j < m1.len() && m1[j] == w1[k];
                    assert(e1[pre.len() + j] == m1[j]);
                }
            }
            assert forall|k: int| 0 <= k < e1.len() implies holds_path(w1, #[trigger] e1[k]) by {
                if pre.len() <= k < pre.len() + m1.len() {
                    let j = k - pre.len();
                    assert(e1[k] == m1[j]);
                    if refused_since(log, n0, m1[j]) {
                        let i = choose|i: int| n0 <= i && i < log.len() && #[trigger] refused_at(log, i, m1[j]);
                        assert(log[i].1);
                    }
                } else {
                    let a = if k < pre.len() { k } else { k - m1.len() + m0.len() };
                    assert(e0[a] == e1[k]);
                    let d = e1[k];
                    assert(holds_path(w0, e0[a]));
                    let m = choose|m: int| 0 <= m < w0.len() && path_eq(#[trigger] w0[m], d);
                    if w1.contains(w0[m]) {
                        let q = choose|q: int| 0 <= q < w1.len() && w1[q] == w0[m];
                        assert(path_eq(w1[q], d));
                    } else {
                        let d2 = choose|d2: Seq<char>| m0.contains(d2) && path_eq(w0[m], d2);
                        let b0 = choose|b0: int| 0 <= b0 < m0.len() && m0[b0] == d2;
                        let b = pre.len() + b0;
                        assert(e0[b] == d2);
                        assert(e0.contains(w0[m]));
                        let c = choose|c: int| 0 <= c < e0.len() && e0[c] == w0[m];
                        assert(path_eq(e0[c], e0[a]));
                        assert(path_eq(e0[c], e0[b]));
                        assert(c == a);
                        assert(c == b);
                    }
                }
            }
        },
    }
}

/// Toggle a directory and update the watcher accordingly.
/// When expanding: start watching the directory.
/// When collapsing: stop watching the directory and its expanded children.
///
/// Only directories expanded at or below the toggled node are newly
/// watched, and only watches on directories that were expanded there are
/// dropped. After an expansion every directory expanded at or below the
/// node is watched unless the platform refused it; after a collapse none
/// of the directories that were expanded there is still watched (when no
/// two watched paths were the same path). So when the watched directories
/// were the expanded ones, every directory above the target is expanded, no
/// two expanded directories are the same path and the platform accepts
/// every request, the watched directories are the expanded ones again.
pub fn toggle_at_path_watched(
    tree: &mut TreeNode,
    target: &str,
    handle: &mut WatcherHandle,
    show_hidden: bool,
) -> (r: bool)
    ensures
        match locate(old(tree)@, target@) {
            None => !r && final(tree)@ == old(tree)@ && final(handle).watched() == old(
                handle,
            ).watched(),
            Some(ix) => r && exists|l: Listing|
                #![trigger lazy_toggled(node_at(old(tree)@, ix), l)]
                final(tree)@ == replace_at(old(tree)@, ix, lazy_toggled(node_at(old(tree)@, ix), l))
                    && listing_ok(node_at(old(tree)@, ix).path, show_hidden, l),
        },
        distinct_paths(old(handle).watched()) ==> distinct_paths(final(handle).watched()),
        forall|k: int|
            0 <= k < final(handle).watched().len() ==> old(handle).watched().contains(
                #[trigger] final(handle).watched()[k],
            ) || expanded_dirs_at(final(tree)@, target@).contains(final(handle).watched()[k]),
        forall|k: int|
            0 <= k < old(handle).watched().len() ==> final(handle).watched().contains(
                #[trigger] old(handle).watched()[k],
            ) || exists|d: Seq<char>|
                expanded_dirs_at(old(tree)@, target@).contains(d) && path_eq(
                    old(handle).watched()[k],
                    d,
                ),
        forall|k: int|
            0 <= k < expanded_dirs_at(final(tree)@, target@).len() ==> holds_path(
                final(handle).watched(),
                #[trigger] expanded_dirs_at(final(tree)@, target@)[k],
            ) || refused_since(
                final(handle).requests(),
                old(handle).requests().len() as int,
                expanded_dirs_at(final(tree)@, target@)[k],
            ),
        distinct_paths(old(handle).watched()) && locate(final(tree)@, target@) is Some
            && expanded_dirs_at(final(tree)@, target@).len() == 0 ==> forall|j: int, k: int|
            0 <= j < expanded_dirs_at(old(tree)@, target@).len()
                && 0 <= k < final(handle).watched().len()
                ==> #[trigger] final(handle).watched()[k] != #[trigger] expanded_dirs_at(old(tree)@, target@)[j],
        watches_expanded(old(handle).watched(), old(tree)@) && distinct_paths(old(handle).watched())
            && paths_apart(expanded_dirs(old(tree)@)) && opened_to(old(tree)@, target@)
            && accepted_since(final(handle).requests(), old(handle).requests().len() as int)
            ==> watches_expanded(final(handle).watched(), final(tree)@),
{
    let ghost w_old = handle.watched();
    let ghost n0 = handle.requests().len() as int;
    let previously_expanded: Vec<String> = match find_node(tree, target) {
        Some(n) => collect_expanded_dirs(n),
        None => {
            let empty: Vec<String> = Vec::new();
            assert(strings_view(empty@) =~= seq![]);
            empty
        },
    };
    let ghost pv = strings_view(previously_expanded@);
    assert(pv == expanded_dirs_at(old(tree)@, target@));
    if !toggle_at_path_lazy(tree, target, show_hidden) {
        return false;
    }
    match find_node(tree, target) {
        Some(node) => {
            if node.is_expanded() {
                let dirs = collect_expanded_dirs(node);
                let ghost dv = strings_view(dirs@);
                assert(dv == expanded_dirs_at(tree@, target@));
                assert(dv == expanded_dirs(node@));
                assert(dv.len() > 0);
                let mut i: usize = 0;
                while i < dirs.len()
                    invariant
                        i <= dirs@.len(),
                        dv == strings_view(dirs@),
                        distinct_paths(w_old) ==> distinct_paths(handle.watched()),
                        forall|k: int|
                            0 <= k < handle.watched().len() ==> w_old.contains(
                                #[trigger] handle.watched()[k],
                            ) || dv.contains(handle.watched()[k]),
                        forall|k: int|
                            0 <= k < w_old.len() ==> handle.watched().contains(#[trigger] w_old[k]),
                        0 <= n0 <= handle.requests().len(),
                        forall|k: int|
                            0 <= k < i ==> holds_path(handle.watched(), #[trigger] dv[k])
                                || refused_since(handle.requests(), n0, dv[k]),
                    decreases dirs@.len() - i,
                {
                    let ghost w0 = handle.watched();
                    let ghost q0 = handle.requests();
                    assert(dv[i as int] == dirs@[i as int]@);
                    handle.watch(dirs[i].as_str());
                    proof {
                        let w1 = handle.watched();
                        let q1 = handle.requests();
                        let d = dv[i as int];
                        assert(q1 == q0 || q1 == q0.push((d, q1.last().1)));
                        assert forall|k: int| 0 <= k < i + 1 implies holds_path(w1, #[trigger] dv[k])
                            || refused_since(q1, n0, dv[k]) by {
                            if k < i {
                                assert(holds_path(w0, dv[k]) || refused_since(q0, n0, dv[k]));
                                if holds_path(w0, dv[k]) {
                                    if w1 != w0 {
                                        lemma_holds_push(w0, dv[k], d);
                                    }
                                } else if q1 != q0 {
                                    lemma_refused_grow(q0, q1.last(), n0, dv[k]);
                                    assert(q0.push(q1.last()) == q1);
                                }
                            } else {
                                if !holds_path(w0, d) {
                                    if q1.last().1 {
                                        assert(w1 == w0.push(d));
                                        assert(w1[w0.len() as int] == d);
                                        assert(path_eq(w1[w0.len() as int], d));
                                    } else {
                                        assert(q1[q0.len() as int] == (d, false));
                                        assert(refused_at(q1, q0.len() as int, d));
                                    }
                                }
                            }
                        }
                        assert forall|k: int| 0 <= k < w1.len() implies w_old.contains(
                            #[trigger] w1[k],
                        ) || dv.contains(w1[k]) by {
                            if k < w0.len() {
                                assert(w1[k] == w0[k]);
                            } else {
                                assert(w1[k] == dv[i as int]);
                            }
                        }
                        assert forall|k: int| 0 <= k < w_old.len() implies w1.contains(
                            #[trigger] w_old[k],
                        ) by {
                            assert(w0.contains(w_old[k]));
                            let j = choose|j: int| 0 <= j < w0.len() && w0[j] == w_old[k];
                            assert(w1[j] == w0[j]);
                        }
                    }
                    i = i + 1;
                }
            } else {
                let mut i: usize = 0;
                while i < previously_expanded.len()
                    invariant
                        i <= previously_expanded@.len(),
                        pv == strings_view(previously_expanded@),
                        distinct_paths(w_old) ==> distinct_paths(handle.watched()),
                        forall|k: int|
                            0 <= k < handle.watched().len() ==> w_old.contains(
                                #[trigger] handle.watched()[k],
                            ),
                        forall|k: int|
                            0 <= k < w_old.len() ==> handle.watched().contains(#[trigger] w_old[k])
                                || exists|d: Seq<char>| pv.contains(d) && path_eq(w_old[k], d),
                        handle.requests().len() == n0,
                        distinct_paths(w_old) ==> forall|j: int, k: int|
                            0 <= j < i && 0 <= k < handle.watched().len() ==> #[trigger] handle.watched()[k]
                                != #[trigger] pv[j],
                    decreases previously_expanded@.len() - i,
                {
                    let ghost w0 = handle.watched();
                    let ghost d = pv[i as int];
                    assert(d == previously_expanded@[i as int]@);
                    handle.unwatch(previously_expanded[i].as_str());
                    proof {
                        let w1 = handle.watched();
                        match first_same(w0, d, 0) {
                            Some(f) => {
                                lemma_first_same(w0, d, 0);
                                assert forall|k: int| 0 <= k < w1.len() implies w_old.contains(
                                    #[trigger] w1[k],
                                ) by {
                                    if k < f {
                                        assert(w1[k] == w0[k]);
                                    } else {
                                        assert(w1[k] == w0[k + 1]);
                                    }
                                }
                                assert forall|k: int| 0 <= k < w_old.len() implies w1.contains(
                                    #[trigger] w_old[k],
                                ) || exists|d2: Seq<char>| pv.contains(d2) && path_eq(w_old[k], d2) by {
                                    if w0.contains(w_old[k]) {
                                        let j = choose|j: int| 0 <= j < w0.len() && w0[j] == w_old[k];
                                        if j < f {
                                            assert(w1[j] == w0[j]);
                                        } else if j > f {
                                            assert(w1[j - 1] == w0[j]);
                                        } else {
                                            assert(pv.contains(d));
                                            assert(path_eq(w_old[k], d));
                                        }
                                    }
                                }
                                if distinct_paths(w_old) {
                                    assert forall|j: int, k: int|
                                        0 <= j < i + 1 && 0 <= k < w1.len() implies #[trigger] w1[k]
                                        != #[trigger] pv[j] by {
                                        let k0 = if k < f { k } else { k + 1 };
                                        assert(w1[k] == w0[k0]);
                                        if j == i && w1[k] == d {
                                            if k0 < f {
                                                assert(path_eq(w0[k0], d));
                                            } else {
                                                assert(path_eq(w0[f], w0[k0]));
                                            }
                                        }
                                    }
                                }
                            },
                            None => {
                                lemma_first_same(w0, d, 0);
                                if distinct_paths(w_old) {
                                    assert forall|j: int, k: int|
                                        0 <= j < i + 1 && 0 <= k < w1.len() implies #[trigger] w1[k]
                                        != #[trigger] pv[j] by {
                                        if j == i {
                                            assert(!path_eq(w1[k], d));
                                        }
                                    }
                                }
                            },
                        }
                    }
                    i = i + 1;
                }
            }
        },
        None => {},
    }
    proof {
        if watches_expanded(w_old, old(tree)@) && distinct_paths(w_old) && paths_apart(
            expanded_dirs(old(tree)@),
        ) && opened_to(old(tree)@, target@) && accepted_since(handle.requests(), n0) {
            lemma_toggle_watches(
                old(tree)@,
                tree@,
                target@,
                w_old,
                handle.watched(),
                handle.requests(),
                n0,
            );
        }
    }
    true
}

} // verus!
