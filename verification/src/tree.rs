//! The file tree: directories with lazily listed children that can be
//! expanded and collapsed, and the flat list of visible entries drawn by
//! the user interfaces.
use vstd::prelude::*;

use crate::pathname::{path_has_prefix, path_starts_with, paths_equal, same_path};
use crate::text::{chars_of, push_all, string_push};

verus! {

/// A node in the file tree.
#[derive(Debug)]
pub struct TreeNode {
    pub name: String,
    pub path: String,
    pub kind: NodeKind,
}

#[derive(Debug)]
pub enum NodeKind {
    File,
    Directory { children: Vec<TreeNode>, expanded: bool },
}

/// The mathematical content of a tree node.
pub struct NodeView {
    pub name: Seq<char>,
    pub path: Seq<char>,
    pub kind: KindView,
}

pub enum KindView {
    File,
    /// Children in order, and whether the directory is expanded.
    Dir(Seq<NodeView>, bool),
}

pub open spec fn node_view(n: TreeNode) -> NodeView
    decreases n,
{
    NodeView {
        name: n.name@,
        path: n.path@,
        kind: match n.kind {
            NodeKind::File => KindView::File,
            NodeKind::Directory { children, expanded } => KindView::Dir(
                nodes_view(children@),
                expanded,
            ),
        },
    }
}

pub open spec fn nodes_view(cs: Seq<TreeNode>) -> Seq<NodeView>
    decreases cs,
{
    if cs.len() == 0 {
        seq![]
    } else {
        nodes_view(cs.drop_last()).push(node_view(cs.last()))
    }
}

impl View for TreeNode {
    type V = NodeView;

    open spec fn view(&self) -> NodeView {
        node_view(*self)
    }
}

pub proof fn lemma_nodes_view(cs: Seq<TreeNode>)
    ensures
        nodes_view(cs).len() == cs.len(),
        forall|j: int| 0 <= j < cs.len() ==> #[trigger] nodes_view(cs)[j] == node_view(cs[j]),
    decreases cs.len(),
{
    if cs.len() > 0 {
        lemma_nodes_view(cs.drop_last());
    }
}

pub proof fn lemma_nodes_view_ext(a: Seq<TreeNode>, b: Seq<TreeNode>)
    requires
        a.len() == b.len(),
        forall|j: int| 0 <= j < a.len() ==> node_view(#[trigger] a[j]) == node_view(b[j]),
    ensures
        nodes_view(a) == nodes_view(b),
{
    lemma_nodes_view(a);
    lemma_nodes_view(b);
    assert(nodes_view(a) =~= nodes_view(b));
}

pub open spec fn view_is_dir(v: NodeView) -> bool {
    v.kind is Dir
}

pub open spec fn view_is_expanded(v: NodeView) -> bool {
    match v.kind {
        KindView::Dir(_, e) => e,
        KindView::File => false,
    }
}

pub open spec fn view_with_expanded(v: NodeView, state: bool) -> NodeView {
    match v.kind {
        KindView::Dir(cs, _) => NodeView { kind: KindView::Dir(cs, state), ..v },
        KindView::File => v,
    }
}

pub open spec fn view_toggled(v: NodeView) -> NodeView {
    view_with_expanded(v, !view_is_expanded(v))
}

pub open spec fn view_children(v: NodeView) -> Seq<NodeView> {
    match v.kind {
        KindView::Dir(cs, _) => cs,
        KindView::File => seq![],
    }
}

pub open spec fn view_with_children(v: NodeView, cs: Seq<NodeView>) -> NodeView {
    match v.kind {
        KindView::Dir(_, e) => NodeView { kind: KindView::Dir(cs, e), ..v },
        KindView::File => v,
    }
}

/// Height of a tree: 1 for a leaf.
pub open spec fn height(v: NodeView) -> nat
    decreases v,
{
    match v.kind {
        KindView::Dir(cs, _) => 1 + heights_max(cs),
        KindView::File => 1,
    }
}

pub open spec fn heights_max(cs: Seq<NodeView>) -> nat
    decreases cs,
{
    if cs.len() == 0 {
        0
    } else {
        let h = height(cs.last());
        let m = heights_max(cs.drop_last());
        if h > m {
            h
        } else {
            m
        }
    }
}

pub proof fn lemma_heights_max(cs: Seq<NodeView>, j: int)
    requires
        0 <= j < cs.len(),
    ensures
        height(cs[j]) <= heights_max(cs),
    decreases cs.len(),
{
    if j < cs.len() - 1 {
        lemma_heights_max(cs.drop_last(), j);
    }
}

// ---------------------------------------------------------------------------
// Flattening
// ---------------------------------------------------------------------------
/// The visible entries of a tree in pre-order, each with its depth: a node,
/// then, when it is an expanded directory, the visible entries of its
/// children one level deeper.
pub open spec fn visible(v: NodeView, depth: int) -> Seq<(NodeView, int)>
    decreases v, 0int,
{
    seq![(v, depth)] + match v.kind {
        KindView::Dir(cs, true) => visible_all(cs, depth + 1, cs.len() as int),
        _ => seq![],
    }
}

/// The visible entries of the first `n` of `cs`, in order.
pub open spec fn visible_all(cs: Seq<NodeView>, depth: int, n: int) -> Seq<(NodeView, int)>
    decreases cs, n,
{
    if n <= 0 || n > cs.len() {
        seq![]
    } else {
        visible_all(cs, depth, n - 1) + visible(cs[n - 1], depth)
    }
}

/// A flattened tree entry for rendering.
#[derive(Debug)]
pub struct FlatEntry<'a> {
    pub node: &'a TreeNode,
    pub depth: usize,
}

pub open spec fn flat_view(es: Seq<FlatEntry>) -> Seq<(NodeView, int)> {
    es.map_values(|e: FlatEntry| (node_view(*e.node), e.depth as int))
}

// ---------------------------------------------------------------------------
// Searching by path
// ---------------------------------------------------------------------------
/// The first node, in pre-order, whose path is the target; the search
/// looks through every child in order. The answer is the node with its
/// expansion flipped, and the tree with that node replaced.
pub open spec fn toggled(v: NodeView, t: Seq<char>) -> Option<NodeView>
    decreases v, 0int,
{
    if same_path(v.path, t) {
        Some(view_toggled(v))
    } else {
        match v.kind {
            KindView::Dir(cs, e) => match toggled_from(cs, t, 0) {
                Some((i, c)) => Some(NodeView { kind: KindView::Dir(cs.update(i, c), e), ..v }),
                None => None,
            },
            KindView::File => None,
        }
    }
}

/// The first child at or after `i` in which `toggled` finds the target.
pub open spec fn toggled_from(cs: Seq<NodeView>, t: Seq<char>, i: int) -> Option<(int, NodeView)>
    decreases cs, cs.len() - i,
{
    if i < 0 || i >= cs.len() {
        None
    } else {
        match toggled(cs[i], t) {
            Some(c) => Some((i, c)),
            None => toggled_from(cs, t, i + 1),
        }
    }
}

pub proof fn lemma_toggled_from(cs: Seq<NodeView>, t: Seq<char>, i: int)
    requires
        0 <= i,
    ensures
        toggled_from(cs, t, i) matches Some((j, c)) ==> i <= j < cs.len() && toggled(cs[j], t)
            == Some(c),
    decreases cs.len() - i,
{
    if i < cs.len() && toggled(cs[i], t) is None {
        lemma_toggled_from(cs, t, i + 1);
    }
}

/// Every directory along the way to the target expanded: a node whose path
/// the target starts with is expanded, and so, recursively, are its children
/// whose paths the target starts with.
pub open spec fn expanded_to(v: NodeView, t: Seq<char>) -> NodeView
    decreases v, 0int,
{
    if path_starts_with(t, v.path) {
        match v.kind {
            KindView::Dir(cs, _) => NodeView {
                kind: KindView::Dir(expanded_children(cs, t, cs.len() as int), true),
                ..v
            },
            KindView::File => v,
        }
    } else {
        v
    }
}

/// The first `n` children, each expanded towards the target when the target
/// starts with its path.
pub open spec fn expanded_children(cs: Seq<NodeView>, t: Seq<char>, n: int) -> Seq<NodeView>
    decreases cs, n,
{
    if n <= 0 || n > cs.len() {
        seq![]
    } else {
        expanded_children(cs, t, n - 1).push(
            if path_starts_with(t, cs[n - 1].path) {
                expanded_to(cs[n - 1], t)
            } else {
                cs[n - 1]
            },
        )
    }
}

pub proof fn lemma_expanded_children(cs: Seq<NodeView>, t: Seq<char>, n: int)
    requires
        0 <= n <= cs.len(),
    ensures
        expanded_children(cs, t, n).len() == n,
        forall|j: int|
            0 <= j < n ==> #[trigger] expanded_children(cs, t, n)[j] == if path_starts_with(
                t,
                cs[j].path,
            ) {
                expanded_to(cs[j], t)
            } else {
                cs[j]
            },
    decreases n,
{
    if n > 0 {
        lemma_expanded_children(cs, t, n - 1);
    }
}

/// Index of the first entry whose path is the target, from index `i` on.
pub open spec fn first_with_path(es: Seq<(NodeView, int)>, t: Seq<char>, i: int) -> Option<int>
    decreases es.len() - i,
{
    if i < 0 || i >= es.len() {
        None
    } else if same_path(es[i].0.path, t) {
        Some(i)
    } else {
        first_with_path(es, t, i + 1)
    }
}

impl TreeNode {
    /// Create a file node.
    pub fn file(name: String, path: String) -> (r: TreeNode)
        ensures
            r@ == (NodeView { name: name@, path: path@, kind: KindView::File }),
    {
        TreeNode { name, path, kind: NodeKind::File }
    }

    /// Create a directory node.
    pub fn directory(name: String, path: String, children: Vec<TreeNode>) -> (r: TreeNode)
        ensures
            r@ == (NodeView {
                name: name@,
                path: path@,
                kind: KindView::Dir(nodes_view(children@), false),
            }),
    {
        TreeNode { name, path, kind: NodeKind::Directory { children, expanded: false } }
    }

    pub fn is_dir(&self) -> (r: bool)
        ensures
            r == view_is_dir(self@),
    {
        match self.kind {
            NodeKind::Directory { .. } => true,
            NodeKind::File => false,
        }
    }

    pub fn is_expanded(&self) -> (r: bool)
        ensures
            r == view_is_expanded(self@),
    {
        match self.kind {
            NodeKind::Directory { expanded, .. } => expanded,
            NodeKind::File => false,
        }
    }

    /// Toggle expand/collapse for a directory node.
    pub fn toggle_expanded(&mut self)
        ensures
            final(self)@ == view_toggled(old(self)@),
    {
        if let NodeKind::Directory { expanded, .. } = &mut self.kind {
            *expanded = !*expanded;
        }
    }

    /// Set expanded state for a directory node.
    pub fn set_expanded(&mut self, state: bool)
        ensures
            final(self)@ == view_with_expanded(old(self)@, state),
    {
        if let NodeKind::Directory { expanded, .. } = &mut self.kind {
            *expanded = state;
        }
    }

    /// Get children if this is a directory.
    pub fn children(&self) -> (r: Option<&[TreeNode]>)
        ensures
            r is None <==> self.kind is File,
            r matches Some(c) ==> (self.kind matches NodeKind::Directory { children, .. }
                && c@ == children@),
    {
        match &self.kind {
            NodeKind::Directory { children, .. } => Some(children.as_slice()),
            NodeKind::File => None,
        }
    }

    /// Get mutable children if this is a directory.
    pub fn children_mut(&mut self) -> (r: Option<&mut Vec<TreeNode>>)
        ensures
            match r {
                Some(c) => old(self).kind matches NodeKind::Directory { children, expanded }
                    && *c == children && *final(self) == (TreeNode {
                    name: old(self).name,
                    path: old(self).path,
                    kind: NodeKind::Directory { children: *final(c), expanded },
                }),
                None => old(self).kind is File && *final(self) == *old(self),
            },
    {
        match &mut self.kind {
            NodeKind::Directory { children, .. } => Some(children),
            NodeKind::File => None,
        }
    }

    /// Find a node by path and toggle it. Returns true if found.
    pub fn toggle_at_path(&mut self, target: &str) -> (r: bool)
        ensures
            match toggled(old(self)@, target@) {
                Some(nv) => r && final(self)@ == nv,
                None => !r && final(self)@ == old(self)@,
            },
        decreases *old(self),
    {
        if paths_equal(self.path.as_str(), target) {
            self.toggle_expanded();
            return true;
        }
        let ghost old_view = self@;
        match &mut self.kind {
            NodeKind::Directory { children, expanded } => {
                let ghost old_cs = children@;
                proof {
                    lemma_nodes_view(old_cs);
                }
                let mut i: usize = 0;
                #[verifier::loop_isolation(false)]
                while i < children.len()
                    invariant
                        i <= children@.len(),
                        children@.len() == old_cs.len(),
                        forall|j: int|
                            0 <= j < old_cs.len() ==> node_view(#[trigger] children@[j])
                                == node_view(old_cs[j]),
                        forall|j: int| i <= j < old_cs.len() ==> #[trigger] children@[j] == old_cs[j],
                        toggled_from(nodes_view(old_cs), target@, 0) == toggled_from(
                            nodes_view(old_cs),
                            target@,
                            i as int,
                        ),
                        nodes_view(old_cs).len() == old_cs.len(),
                        forall|j: int|
                            0 <= j < old_cs.len() ==> #[trigger] nodes_view(old_cs)[j]
                                == node_view(old_cs[j]),
                    decreases children@.len() - i,
                {
                    proof {
                        let k = old(self).kind;
                        assert(decreases_to!(*old(self) => k));
                        assert(decreases_to!(k => k->children));
                        assert(decreases_to!(k->children => k->children@));
                        assert(decreases_to!(k->children@ => old_cs[i as int]));
                    }
                    let ghost before_child = children@[i as int];
                    let found = children[i].toggle_at_path(target);
                    if found {
                        proof {
                            let cs2 = children@;
                            lemma_nodes_view(cs2);
                            assert(nodes_view(cs2) =~= nodes_view(old_cs).update(
                                i as int,
                                node_view(cs2[i as int]),
                            ));
                        }
                        return true;
                    }
                    i = i + 1;
                }
                proof {
                    lemma_nodes_view_ext(children@, old_cs);
                }
                false
            },
            NodeKind::File => false,
        }
    }

    /// Collect all visible (flattened) entries with their depth level.
    /// Used by the GUI to render the tree as a flat list.
    pub fn flatten(&self, depth: usize) -> (r: Vec<FlatEntry<'_>>)
        requires
            depth + height(self@) <= usize::MAX,
        ensures
            flat_view(r@) == visible(self@, depth as int),
        decreases *self,
    {
        let mut entries = vec![FlatEntry { node: self, depth }];
        assert(flat_view(entries@) =~= seq![(self@, depth as int)]);
        if let NodeKind::Directory { children, expanded: true } = &self.kind {
            let ghost cs = nodes_view(children@);
            proof {
                lemma_nodes_view(children@);
            }
            let mut i: usize = 0;
            #[verifier::loop_isolation(false)]
            while i < children.len()
                invariant
                    i <= children@.len(),
                    cs == nodes_view(children@),
                    self@.kind == KindView::Dir(cs, true),
                    cs.len() == children@.len(),
                    forall|j: int| 0 <= j < cs.len() ==> #[trigger] cs[j] == node_view(children@[j]),
                    depth + height(self@) <= usize::MAX,
                    flat_view(entries@) == seq![(self@, depth as int)] + visible_all(
                        cs,
                        depth + 1,
                        i as int,
                    ),
                decreases children@.len() - i,
            {
                proof {
                    lemma_heights_max(cs, i as int);
                    let k = self.kind;
                    assert(decreases_to!(*self => k));
                    assert(decreases_to!(k => k->children));
                    assert(decreases_to!(k->children => k->children@));
                    assert(decreases_to!(k->children@ => children@[i as int]));
                }
                let mut sub = children[i].flatten(depth + 1);
                let ghost before = entries@;
                let ghost sub_v = sub@;
                entries.append(&mut sub);
                proof {
                    assert(flat_view(entries@) =~= flat_view(before) + flat_view(sub_v));
                    assert(visible_all(cs, depth + 1, i + 1) == visible_all(cs, depth + 1, i as int)
                        + visible(cs[i as int], depth + 1));
                }
                i = i + 1;
            }
            assert(visible_all(cs, depth + 1, i as int) == visible_all(
                cs,
                depth + 1,
                cs.len() as int,
            ));
        }
        entries
    }
}

/// Expand all directories along the path to a target file.
pub fn expand_to_path(tree: &mut TreeNode, target: &str)
    ensures
        final(tree)@ == expanded_to(old(tree)@, target@),
    decreases *old(tree),
{
    if path_has_prefix(target, tree.path.as_str()) {
        let ghost v0 = tree@;
        match &mut tree.kind {
            NodeKind::Directory { children, expanded } => {
                *expanded = true;
                let ghost old_cs = children@;
                let ghost cv = nodes_view(old_cs);
                proof {
                    lemma_nodes_view(old_cs);
                    lemma_expanded_children(cv, target@, cv.len() as int);
                }
                let mut i: usize = 0;
                #[verifier::loop_isolation(false)]
                while i < children.len()
                    invariant
                        i <= children@.len(),
                        children@.len() == old_cs.len(),
                        cv.len() == old_cs.len(),
                        forall|j: int| 0 <= j < cv.len() ==> #[trigger] cv[j] == node_view(old_cs[j]),
                        forall|j: int|
                            i <= j < children@.len() ==> #[trigger] children@[j] == old_cs[j],
                        forall|j: int|
                            0 <= j < i ==> node_view(#[trigger] children@[j])
                                == expanded_children(cv, target@, cv.len() as int)[j],
                        expanded_children(cv, target@, cv.len() as int).len() == cv.len(),
                        forall|j: int|
                            0 <= j < cv.len() ==> #[trigger] expanded_children(
                                cv,
                                target@,
                                cv.len() as int,
                            )[j] == if path_starts_with(target@, cv[j].path) {
                                expanded_to(cv[j], target@)
                            } else {
                                cv[j]
                            },
                    decreases children@.len() - i,
                {
                    if path_has_prefix(target, children[i].path.as_str()) {
                        proof {
                            let k = old(tree).kind;
                            assert(decreases_to!(*old(tree) => k));
                            assert(decreases_to!(k => k->children));
                            assert(decreases_to!(k->children => k->children@));
                            assert(decreases_to!(k->children@ => old_cs[i as int]));
                        }
                        expand_to_path(&mut children[i], target);
                    }
                    i = i + 1;
                }
                proof {
                    lemma_nodes_view(children@);
                    assert(nodes_view(children@) =~= expanded_children(
                        cv,
                        target@,
                        cv.len() as int,
                    ));
                }
            },
            NodeKind::File => {},
        }
    }
}

/// Find the flat index of a path in the tree.
pub fn find_cursor_for_path(tree: &TreeNode, target: &str) -> (r: Option<usize>)
    requires
        height(tree@) <= usize::MAX,
    ensures
        match r {
            Some(i) => first_with_path(visible(tree@, 0), target@, 0) == Some(i as int),
            None => first_with_path(visible(tree@, 0), target@, 0) is None,
        },
{
    let flat = tree.flatten(0);
    let ghost es = visible(tree@, 0);
    let mut i: usize = 0;
    while i < flat.len()
        invariant
            i <= flat@.len(),
            flat_view(flat@) == es,
            es == visible(tree@, 0),
            first_with_path(es, target@, 0) == first_with_path(es, target@, i as int),
        decreases flat@.len() - i,
    {
        assert(es[i as int] == (node_view(*flat@[i as int].node), flat@[i as int].depth as int));
        if paths_equal(flat[i].node.path.as_str(), target) {
            assert(same_path(es[i as int].0.path, target@));
            assert(i < es.len());
            assert(first_with_path(es, target@, i as int) == Some(i as int));
            return Some(i);
        }
        i = i + 1;
    }
    None
}

// ---------------------------------------------------------------------------
// Laws
// ---------------------------------------------------------------------------
proof fn lemma_toggled_from_first(cs: Seq<NodeView>, t: Seq<char>, k: int)
    requires
        0 <= k,
    ensures
        toggled_from(cs, t, k) matches Some((i, c)) ==> forall|j: int|
            k <= j < i ==> #[trigger] toggled(cs[j], t) is None,
        toggled_from(cs, t, k) is None ==> forall|j: int|
            k <= j < cs.len() ==> #[trigger] toggled(cs[j], t) is None,
    decreases cs.len() - k,
{
    if k < cs.len() && toggled(cs[k], t) is None {
        lemma_toggled_from_first(cs, t, k + 1);
    }
}

proof fn lemma_toggled_from_at(cs: Seq<NodeView>, t: Seq<char>, k: int, i: int, x: NodeView)
    requires
        0 <= k <= i < cs.len(),
        forall|j: int| k <= j < i ==> #[trigger] toggled(cs[j], t) is None,
        toggled(cs[i], t) == Some(x),
    ensures
        toggled_from(cs, t, k) == Some((i, x)),
    decreases i - k,
{
    if k < i {
        assert(toggled(cs[k], t) is None);
        lemma_toggled_from_at(cs, t, k + 1, i, x);
    }
}

/// Toggling the node at a path keeps that node's path.
pub proof fn lemma_toggled_keeps_path(v: NodeView, t: Seq<char>)
    ensures
        toggled(v, t) matches Some(w) ==> w.path == v.path && w.name == v.name,
{
}

/// Toggling the same path twice gives back the tree it started from: the
/// second toggle finds the node the first one flipped and flips it back.
pub proof fn lemma_toggle_twice(v: NodeView, t: Seq<char>)
    ensures
        toggled(v, t) matches Some(w) ==> toggled(w, t) == Some(v),
    decreases v,
{
    if same_path(v.path, t) {
        let w = view_toggled(v);
        assert(toggled(w, t) == Some(view_toggled(w)));
        match v.kind {
            KindView::Dir(cs, e) => {
                assert(view_toggled(w) == v);
            },
            KindView::File => {},
        }
    } else {
        match v.kind {
            KindView::Dir(cs, e) => {
                match toggled_from(cs, t, 0) {
                    Some((i, c)) => {
                        lemma_toggled_from(cs, t, 0);
                        lemma_toggled_from_first(cs, t, 0);
                        assert(decreases_to!(v => cs[i]));
                        lemma_toggle_twice(cs[i], t);
                        let cs2 = cs.update(i, c);
                        assert forall|j: int| 0 <= j < i implies #[trigger] toggled(cs2[j], t) is None by {
                            assert(cs2[j] == cs[j]);
                        }
                        lemma_toggled_from_at(cs2, t, 0, i, cs[i]);
                        assert(cs2.update(i, cs[i]) =~= cs);
                    },
                    None => {},
                }
            },
            KindView::File => {},
        }
    }
}

/// Expanding towards a path keeps a node's path and name.
pub proof fn lemma_expanded_keeps_path(v: NodeView, t: Seq<char>)
    ensures
        expanded_to(v, t).path == v.path,
        expanded_to(v, t).name == v.name,
{
}

/// Expanding towards the same path twice changes nothing the second time.
pub proof fn lemma_expand_idempotent(v: NodeView, t: Seq<char>)
    ensures
        expanded_to(expanded_to(v, t), t) == expanded_to(v, t),
    decreases v,
{
    if path_starts_with(t, v.path) {
        match v.kind {
            KindView::Dir(cs, e) => {
                let n = cs.len() as int;
                let ec = expanded_children(cs, t, n);
                lemma_expanded_children(cs, t, n);
                lemma_expanded_children(ec, t, n);
                let ec2 = expanded_children(ec, t, n);
                assert forall|j: int| 0 <= j < n implies ec2[j] == ec[j] by {
                    lemma_expanded_keeps_path(cs[j], t);
                    if path_starts_with(t, cs[j].path) {
                        assert(decreases_to!(v => cs[j]));
                        lemma_expand_idempotent(cs[j], t);
                    }
                }
                assert(ec2 =~= ec);
            },
            KindView::File => {},
        }
    }
}

/// The entry `find_cursor_for_path` reports holds the target path, and no
/// earlier visible entry does.
pub proof fn lemma_first_with_path(es: Seq<(NodeView, int)>, t: Seq<char>, i: int)
    requires
        0 <= i,
    ensures
        first_with_path(es, t, i) matches Some(k) ==> i <= k < es.len() && same_path(es[k].0.path, t)
            && forall|j: int| i <= j < k ==> !same_path(#[trigger] es[j].0.path, t),
        first_with_path(es, t, i) is None ==> forall|j: int|
            i <= j < es.len() ==> !same_path(#[trigger] es[j].0.path, t),
    decreases es.len() - i,
{
    if i < es.len() && !same_path(es[i].0.path, t) {
        lemma_first_with_path(es, t, i + 1);
    }
}

/// The first visible entry is the node itself; a node that is not an
/// expanded directory shows nothing else.
pub proof fn lemma_visible_root(v: NodeView, depth: int)
    ensures
        visible(v, depth).len() >= 1,
        visible(v, depth)[0] == (v, depth),
        !view_is_expanded(v) ==> visible(v, depth) == seq![(v, depth)],
{
    if !view_is_expanded(v) {
        assert(visible(v, depth) =~= seq![(v, depth)]);
    }
}


// ---------------------------------------------------------------------------
// Printing
// ---------------------------------------------------------------------------
/// `n` levels of indentation, two spaces each.
pub open spec fn indentation(n: nat) -> Seq<char>
    decreases n,
{
    if n == 0 {
        seq![]
    } else {
        indentation((n - 1) as nat) + seq![' ', ' ']
    }
}

/// The marker before a node's name: open or closed triangle for a
/// directory, a space for a file.
pub open spec fn node_marker(v: NodeView) -> char {
    if view_is_dir(v) {
        if view_is_expanded(v) {
            '▾'
        } else {
            '▸'
        }
    } else {
        ' '
    }
}

/// One line of a tree dump: indentation, marker, a space and the name.
pub open spec fn dump_line(v: NodeView, depth: int) -> Seq<char> {
    indentation(depth as nat) + seq![node_marker(v), ' '] + v.name
}

/// The lines that print a tree for debugging: one per visible entry, in
/// order (the printing itself is left to the caller).
pub fn dump_tree_lines(node: &TreeNode, depth: usize) -> (r: Vec<String>)
    requires
        depth + height(node@) <= usize::MAX,
    ensures
        r@.len() == visible(node@, depth as int).len(),
        forall|i: int|
            0 <= i < r@.len() ==> #[trigger] r@[i]@ == dump_line(
                visible(node@, depth as int)[i].0,
                visible(node@, depth as int)[i].1,
            ),
{
    let flat = node.flatten(depth);
    let ghost fv = flat_view(flat@);
    let mut out: Vec<String> = Vec::new();
    let mut i: usize = 0;
    while i < flat.len()
        invariant
            i <= flat@.len(),
            fv == flat_view(flat@),
            fv == visible(node@, depth as int),
            out@.len() == i,
            forall|k: int| 0 <= k < i ==> #[trigger] out@[k]@ == dump_line(fv[k].0, fv[k].1),
        decreases flat@.len() - i,
    {
        let e = &flat[i];
        assert(fv[i as int] == (node_view(*e.node), e.depth as int));
        let mut line = String::new();
        let mut k: usize = 0;
        while k < e.depth
            invariant
                k <= e.depth,
                line@ == indentation(k as nat),
            decreases e.depth - k,
        {
            string_push(&mut line, ' ');
            string_push(&mut line, ' ');
            k = k + 1;
            assert(line@ =~= indentation(k as nat));
        }
        let marker = if e.node.is_dir() {
            if e.node.is_expanded() {
                '▾'
            } else {
                '▸'
            }
        } else {
            ' '
        };
        string_push(&mut line, marker);
        string_push(&mut line, ' ');
        let name = chars_of(e.node.name.as_str());
        push_all(&mut line, name.as_slice());
        assert(line@ =~= dump_line(fv[i as int].0, fv[i as int].1));
        out.push(line);
        i = i + 1;
    }
    out
}

} // verus!
