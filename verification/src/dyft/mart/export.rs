//! The trie as a tree of labelled nodes, for storing it outside the
//! arenas.

use crate::dyft::mart::model::TrieModel;
use crate::dyft::mart::structure::MartIndex;
use crate::dyft::node::common::{MartEdge, MartNodeTypes, MartPointer};
use crate::dyft::node::model::{distinct_labels, edges_map, lemma_edges_map};
use vstd::prelude::*;

verus! {

/// A node of the tree: the reference that it stands for and its children
/// by label.
pub struct Tree {
    pub id: u32,
    pub tag: MartNodeTypes,
    pub children: Seq<(u8, Tree)>,
}

/// What the walk through a part of a level has found: the way to the
/// child that was looked for, the nodes that were seen, and the ways to
/// the nodes of the next level.
pub struct Scan {
    pub target: Option<Seq<usize>>,
    pub visited: Seq<MartPointer>,
    pub next: Seq<Seq<usize>>,
}

/// The greatest height of the first `n` children, plus one; 0 without
/// children.
pub open spec fn max_height(children: Seq<(u8, Tree)>, n: int) -> nat
    decreases children, n,
{
    if n <= 0 || n > children.len() {
        0
    } else {
        let rest = max_height(children, n - 1);
        let this = children[n - 1].1.height() + 1;
        if rest < this {
            this
        } else {
            rest
        }
    }
}

proof fn lemma_max_height(children: Seq<(u8, Tree)>, n: int, i: int)
    requires
        0 <= i < n <= children.len(),
    ensures
        children[i].1.height() < max_height(children, n),
    decreases n,
{
    if i < n - 1 {
        lemma_max_height(children, n - 1, i);
    }
}

/// A way down the tree is no longer than the tree is high.
proof fn lemma_path_height(t: Tree, path: Seq<usize>)
    requires
        t.valid(path),
    ensures
        t.at(path).height() + path.len() <= t.height(),
    decreases path.len(),
{
    if path.len() > 0 {
        lemma_path_height(t, path.drop_last());
        let parent = t.at(path.drop_last());
        lemma_max_height(parent.children, parent.children.len() as int, path.last() as int);
    }
}

/// Once the walk has found the child, the rest of the level changes
/// nothing.
proof fn lemma_scan_found(
    t: Tree,
    ptr: MartPointer,
    level: Seq<Seq<usize>>,
    visited: Seq<MartPointer>,
    n: int,
    m: int,
)
    requires
        0 <= n <= m,
        t.scan(ptr, level, visited, n).target is Some,
    ensures
        t.scan(ptr, level, visited, m) == t.scan(ptr, level, visited, n),
    decreases m,
{
    if n < m {
        lemma_scan_found(t, ptr, level, visited, n, m - 1);
    }
}

impl Tree {
    /// The reference that the node stands for.
    pub open spec fn ptr(self) -> MartPointer {
        MartPointer { nid: self.id, ntype: self.tag }
    }

    /// The node at the end of `path`, which names the child to go to at
    /// each node on the way.
    pub open spec fn at(self, path: Seq<usize>) -> Tree
        decreases path.len(),
    {
        if path.len() == 0 {
            self
        } else {
            self.at(path.drop_last()).children[path.last() as int].1
        }
    }

    /// Each step of `path` names a child that there is.
    pub open spec fn valid(self, path: Seq<usize>) -> bool
        decreases path.len(),
    {
        path.len() == 0 || (self.valid(path.drop_last()) && path.last() < self.at(
            path.drop_last(),
        ).children.len())
    }

    /// Number of edges on the longest way down from the node.
    pub open spec fn height(self) -> nat
        decreases self, 0int,
    {
        max_height(self.children, self.children.len() as int)
    }

    /// The tree after `extra` was added to the children of the node at
    /// the end of `path`; the tree itself if there is no such node.
    pub open spec fn grafted(self, path: Seq<usize>, extra: Seq<(u8, Tree)>) -> Tree
        decreases path.len(),
    {
        if path.len() == 0 {
            Tree { children: self.children + extra, ..self }
        } else if path[0] < self.children.len() {
            Tree {
                children: self.children.update(
                    path[0] as int,
                    (
                        self.children[path[0] as int].0,
                        self.children[path[0] as int].1.grafted(path.drop_first(), extra),
                    ),
                ),
                ..self
            }
        } else {
            self
        }
    }

    /// The first of the first `n` children that stands for `ptr`.
    pub open spec fn first_child(self, ptr: MartPointer, n: int) -> Option<int>
        decreases n,
    {
        if n <= 0 {
            None
        } else {
            match self.first_child(ptr, n - 1) {
                Some(i) => Some(i),
                None => if self.children[n - 1].1.ptr() == ptr {
                    Some(n - 1)
                } else {
                    None
                },
            }
        }
    }

    /// The ways to the children of the node at the end of `path`.
    pub open spec fn child_paths(path: Seq<usize>, n: nat) -> Seq<Seq<usize>> {
        Seq::new(n, |i: int| path.push(i as usize))
    }

    /// Whether a walk that has seen the nodes `visited` looks at the
    /// children of this node: not if it has seen a node that stands for
    /// the same, nor if the node stands for nothing or for a leaf.
    pub open spec fn opened(self, visited: Seq<MartPointer>) -> bool {
        !visited.contains(self.ptr()) && !self.ptr().spec_is_null() && self.tag
            != MartNodeTypes::MartLeafNode
    }

    /// The walk through the first `n` nodes of one level of the tree, in
    /// search of the first node that has a child that stands for `ptr`.
    pub open spec fn scan(
        self,
        ptr: MartPointer,
        level: Seq<Seq<usize>>,
        visited: Seq<MartPointer>,
        n: int,
    ) -> Scan
        decreases n,
    {
        if n <= 0 {
            Scan { target: None, visited, next: Seq::empty() }
        } else {
            let before = self.scan(ptr, level, visited, n - 1);
            let cur = self.at(level[n - 1]);
            if before.target is Some || !cur.opened(before.visited) {
                before
            } else {
                match cur.first_child(ptr, cur.children.len() as int) {
                    Some(i) => Scan {
                        target: Some(level[n - 1].push(i as usize)),
                        visited: before.visited.push(cur.ptr()),
                        next: before.next,
                    },
                    None => Scan {
                        target: None,
                        visited: before.visited.push(cur.ptr()),
                        next: before.next + Self::child_paths(level[n - 1], cur.children.len()),
                    },
                }
            }
        }
    }

    /// The walk through the tree level by level, from the nodes `level`
    /// on and for `fuel` levels at most: the way to the first child that
    /// stands for `ptr`.
    pub open spec fn search(
        self,
        ptr: MartPointer,
        level: Seq<Seq<usize>>,
        visited: Seq<MartPointer>,
        fuel: nat,
    ) -> Option<Seq<usize>>
        decreases fuel,
    {
        if fuel == 0 || level.len() == 0 {
            None
        } else {
            let found = self.scan(ptr, level, visited, level.len() as int);
            if found.target is Some {
                found.target
            } else {
                self.search(ptr, found.next, found.visited, (fuel - 1) as nat)
            }
        }
    }

    /// The way to the first child that stands for `ptr`, when the tree is
    /// walked level by level from the root, each level from left to
    /// right.
    pub open spec fn graft_target(self, ptr: MartPointer) -> Option<Seq<usize>> {
        self.search(ptr, seq![Seq::empty()], Seq::empty(), self.height() + 1)
    }

    /// The edges to the children of the node.
    pub open spec fn edges(self) -> Seq<MartEdge> {
        Seq::new(
            self.children.len(),
            |i: int| (MartEdge { label: self.children[i].0, ptr: self.children[i].1.ptr() }),
        )
    }
}

impl TrieModel {
    /// The tree shows the node that it stands for with all that lies
    /// below it: a node of a tier has its edges as children, each label
    /// once, and each child shows what the edge leads to; a leaf has no
    /// children.
    pub open spec fn mirrors(self, t: Tree) -> bool
        decreases t,
    {
        if t.tag.is_inner() {
            &&& self.heap.contains_key(t.ptr())
            &&& edges_map(t.edges()) == self.heap[t.ptr()]
            &&& distinct_labels(t.edges())
            &&& forall|i: int| 0 <= i < t.children.len() ==> self.mirrors((#[trigger] t.children[i]).1)
        } else {
            t.children.len() == 0
        }
    }
}

/// A node of the tree.
#[derive(Debug)]
pub struct TrieNode {
    pub node_id: u32,
    pub node_type: MartNodeTypes,
    pub children: Vec<(u8, TrieNode)>,
}

/// The tree that a node stands for.
pub open spec fn tree_of(node: TrieNode) -> Tree
    decreases node, 0int,
{
    Tree {
        id: node.node_id,
        tag: node.node_type,
        children: trees_of(node.children@, node.children@.len() as int),
    }
}

/// The trees that the first `n` children stand for, with their labels.
pub open spec fn trees_of(children: Seq<(u8, TrieNode)>, n: int) -> Seq<(u8, Tree)>
    decreases children, n,
{
    if n <= 0 || n > children.len() {
        Seq::empty()
    } else {
        trees_of(children, n - 1).push((children[n - 1].0, tree_of(children[n - 1].1)))
    }
}

pub proof fn lemma_trees_of(children: Seq<(u8, TrieNode)>, n: int)
    requires
        0 <= n <= children.len(),
    ensures
        trees_of(children, n).len() == n,
        forall|i: int|
            0 <= i < n ==> #[trigger] trees_of(children, n)[i] == (
                children[i].0,
                tree_of(children[i].1),
            ),
    decreases n,
{
    if n > 0 {
        lemma_trees_of(children, n - 1);
    }
}

impl View for TrieNode {
    type V = Tree;

    open spec fn view(&self) -> Tree {
        tree_of(*self)
    }
}

impl TrieNode {
    /// The view of a node is made of the views of its children.
    pub proof fn lemma_view(&self)
        ensures
            self@.id == self.node_id,
            self@.tag == self.node_type,
            self@.children.len() == self.children@.len(),
            forall|i: int|
                0 <= i < self.children@.len() ==> #[trigger] self@.children[i] == (
                    self.children@[i].0,
                    self.children@[i].1@,
                ),
    {
        lemma_trees_of(self.children@, self.children@.len() as int);
    }

    pub fn new(node_id: u32, node_type: MartNodeTypes) -> (r: Self)
        ensures
            r@ == (Tree { id: node_id, tag: node_type, children: Seq::empty() }),
    {
        let r = Self { node_id, node_type, children: Vec::new() };
        proof {
            r.lemma_view();
        }
        assert(r@.children =~= Seq::empty());
        r
    }

    /// Adds `node` as the last child, under `label`.
    pub fn insert(&mut self, node: TrieNode, label: u8)
        ensures
            final(self)@ == (Tree {
                children: old(self)@.children.push((label, node@)),
                ..old(self)@
            }),
    {
        let ghost added = node@;
        self.children.push((label, node));
        proof {
            self.lemma_view();
            old(self).lemma_view();
        }
        assert(self.children@.len() == old(self).children@.len() + 1);
        assert(self@.children.len() == old(self)@.children.len() + 1);
        assert forall|i: int| 0 <= i < self@.children.len() implies self@.children[i] == old(
            self,
        )@.children.push((label, added))[i] by {
            if i < old(self).children@.len() {
                assert(self.children@[i] == old(self).children@[i]);
            }
        }
        assert(self@.children =~= old(self)@.children.push((label, added)));
    }

    pub fn id(&self) -> (r: u32)
        ensures
            r == self@.id,
    {
        self.node_id
    }

    pub fn ntype(&self) -> (r: MartNodeTypes)
        ensures
            r == self@.tag,
    {
        self.node_type
    }
}

/// Whether the tag names one of the eight node tiers.
fn is_tier(t: MartNodeTypes) -> (r: bool)
    ensures
        r == t.is_inner(),
{
    t != MartNodeTypes::MartLeafNode && t != MartNodeTypes::MartNilNode
}

/// The trie as a tree, if there is one.
#[derive(Debug)]
pub struct MartTrieExport {
    pub root: Option<TrieNode>,
}

/// The ways as sequences.
pub open spec fn ways(level: Seq<Vec<usize>>) -> Seq<Seq<usize>> {
    Seq::new(level.len(), |k: int| level[k]@)
}

/// The way `path` with one more step.
fn extended(path: &Vec<usize>, step: usize) -> (r: Vec<usize>)
    ensures
        r@ == path@.push(step),
{
    let mut out: Vec<usize> = Vec::new();
    let mut k: usize = 0;
    while k < path.len()
        invariant
            k <= path@.len(),
            out@ == path@.subrange(0, k as int),
        decreases path@.len() - k,
    {
        out.push(path[k]);
        assert(out@ =~= path@.subrange(0, k + 1));
        k = k + 1;
    }
    assert(path@.subrange(0, path@.len() as int) =~= path@);
    out.push(step);
    out
}

/// Whether `p` is among `visited`.
fn seen(visited: &Vec<MartPointer>, p: &MartPointer) -> (r: bool)
    ensures
        r == visited@.contains(*p),
{
    let mut k: usize = 0;
    while k < visited.len()
        invariant
            k <= visited@.len(),
            forall|j: int| 0 <= j < k ==> visited@[j] != *p,
        decreases visited@.len() - k,
    {
        if visited[k] == *p {
            return true;
        }
        k = k + 1;
    }
    false
}

impl TrieNode {
    /// The node at the end of `path`.
    pub fn node_at(&self, path: &Vec<usize>) -> (r: &TrieNode)
        requires
            self@.valid(path@),
        ensures
            r@ == self@.at(path@),
    {
        let mut cur: &TrieNode = self;
        let mut k: usize = 0;
        proof {
            lemma_valid_prefix(self@, path@, 0);
        }
        while k < path.len()
            invariant
                k <= path@.len(),
                self@.valid(path@),
                cur@ == self@.at(path@.subrange(0, k as int)),
            decreases path@.len() - k,
        {
            proof {
                lemma_valid_prefix(self@, path@, k + 1);
                assert(path@.subrange(0, k + 1).drop_last() =~= path@.subrange(0, k as int));
                cur.lemma_view();
            }
            cur = &cur.children[path[k]].1;
            k = k + 1;
        }
        assert(path@.subrange(0, path@.len() as int) =~= path@);
        cur
    }

    /// The first child that stands for `ptr`.
    pub fn child_for(&self, ptr: &MartPointer) -> (r: Option<usize>)
        ensures
            match r {
                Some(i) => self@.first_child(*ptr, self@.children.len() as int) == Some(i as int),
                None => self@.first_child(*ptr, self@.children.len() as int) is None,
            },
    {
        proof {
            self.lemma_view();
        }
        let mut k: usize = 0;
        while k < self.children.len()
            invariant
                k <= self.children@.len(),
                self@.children.len() == self.children@.len(),
                forall|i: int|
                    0 <= i < self.children@.len() ==> #[trigger] self@.children[i] == (
                        self.children@[i].0,
                        self.children@[i].1@,
                    ),
                self@.first_child(*ptr, k as int) is None,
            decreases self.children@.len() - k,
        {
            let child = &self.children[k].1;
            proof {
                child.lemma_view();
            }
            if child.node_id == ptr.nid() && child.node_type == ptr.ntype() {
                proof {
                    lemma_first_child_found(self@, *ptr, k + 1, self@.children.len() as int);
                }
                return Some(k);
            }
            k = k + 1;
        }
        None
    }

    /// The tree after `extra` was added to the children of the node at
    /// the end of `path` from step `depth` on.
    pub fn graft(self, path: &Vec<usize>, depth: usize, extra: Vec<(u8, TrieNode)>) -> (r: TrieNode)
        requires
            depth <= path@.len(),
        ensures
            r@ == self@.grafted(
                path@.subrange(depth as int, path@.len() as int),
                trees_of(extra@, extra@.len() as int),
            ),
        decreases path@.len() - depth,
    {
        let mut node = self;
        let mut extra = extra;
        let ghost before = node;
        let ghost rest = path@.subrange(depth as int, path@.len() as int);
        let ghost added = trees_of(extra@, extra@.len() as int);
        proof {
            before.lemma_view();
            lemma_trees_of(extra@, extra@.len() as int);
        }
        if depth == path.len() {
            node.children.append(&mut extra);
            proof {
                node.lemma_view();
                assert(node@.children =~= before@.children + added);
            }
            node
        } else {
            let step = path[depth];
            assert(rest[0] == step);
            assert(rest.drop_first() =~= path@.subrange(depth + 1, path@.len() as int));
            if step < node.children.len() {
                let (label, child) = node.children.remove(step);
                let grown = child.graft(path, depth + 1, extra);
                node.children.insert(step, (label, grown));
                proof {
                    node.lemma_view();
                    assert(node@.children =~= before@.children.update(
                        step as int,
                        (label, grown@),
                    ));
                }
            }
            node
        }
    }
}

/// A beginning of a way that there is is a way that there is.
proof fn lemma_valid_prefix(t: Tree, path: Seq<usize>, k: int)
    requires
        t.valid(path),
        0 <= k <= path.len(),
    ensures
        t.valid(path.subrange(0, k)),
        k >= 1 ==> path[k - 1] < t.at(path.subrange(0, k - 1)).children.len(),
    decreases path.len() - k,
{
    if k == path.len() {
        assert(path.subrange(0, k) =~= path);
        if k >= 1 {
            assert(path.subrange(0, k - 1) =~= path.drop_last());
        }
    } else {
        lemma_valid_prefix(t, path, k + 1);
        assert(path.subrange(0, k + 1).drop_last() =~= path.subrange(0, k));
        if k >= 1 {
            lemma_valid_prefix_step(t, path.subrange(0, k));
            assert(path.subrange(0, k).drop_last() =~= path.subrange(0, k - 1));
        }
    }
}

proof fn lemma_valid_prefix_step(t: Tree, path: Seq<usize>)
    requires
        t.valid(path),
        path.len() >= 1,
    ensures
        path.last() < t.at(path.drop_last()).children.len(),
{
}

/// The first child that stands for `ptr` among the first `n` is the first
/// among more.
proof fn lemma_first_child_found(t: Tree, ptr: MartPointer, n: int, m: int)
    requires
        1 <= n <= m,
        t.first_child(ptr, n - 1) is None,
        t.children[n - 1].1.ptr() == ptr,
    ensures
        t.first_child(ptr, m) == Some(n - 1),
    decreases m,
{
    if n < m {
        lemma_first_child_found(t, ptr, n, m - 1);
    }
}

impl TrieNode {
    /// The way to the first child that stands for `ptr`, when the tree is
    /// walked level by level from the root, each level from left to
    /// right, and the children of a node are looked at only if no node
    /// seen before stands for the same and the node stands for a node of
    /// a tier.
    pub fn find_target(&self, ptr: &MartPointer) -> (r: Option<Vec<usize>>)
        ensures
            match r {
                Some(path) => self@.graft_target(*ptr) == Some(path@),
                None => self@.graft_target(*ptr) is None,
            },
    {
        let ghost t = self@;
        let ghost high = t.height();
        let mut level: Vec<Vec<usize>> = Vec::new();
        level.push(Vec::new());
        let mut visited: Vec<MartPointer> = Vec::new();
        let ghost depth: nat = 0;
        proof {
            assert(ways(level@) =~= seq![Seq::<usize>::empty()]);
        }
        while level.len() > 0
            invariant
                t == self@,
                high == t.height(),
                depth <= high + 1,
                forall|k: int|
                    0 <= k < level@.len() ==> t.valid(#[trigger] level@[k]@) && level@[k]@.len()
                        == depth,
                t.search(*ptr, ways(level@), visited@, (high + 1 - depth) as nat)
                    == t.graft_target(*ptr),
            decreases high + 1 - depth,
        {
            proof {
                lemma_path_height(t, level@[0]@);
            }
            let ghost first = visited@;
            let ghost paths = ways(level@);
            let mut next: Vec<Vec<usize>> = Vec::new();
            let mut n: usize = 0;
            proof {
                assert(ways(next@) =~= Seq::<Seq<usize>>::empty());
                assert(depth <= high);
            }
            while n < level.len()
                invariant
                    n <= level@.len(),
                    t == self@,
                    paths == ways(level@),
                    depth <= high,
                    high == t.height(),
                    t.search(*ptr, paths, first, (high + 1 - depth) as nat) == t.graft_target(
                        *ptr,
                    ),
                    forall|k: int|
                        0 <= k < level@.len() ==> t.valid(#[trigger] level@[k]@)
                            && level@[k]@.len() == depth,
                    forall|k: int|
                        0 <= k < next@.len() ==> t.valid(#[trigger] next@[k]@) && next@[k]@.len()
                            == depth + 1,
                    t.scan(*ptr, paths, first, n as int) == (Scan {
                        target: None,
                        visited: visited@,
                        next: ways(next@),
                    }),
                decreases level@.len() - n,
            {
                let path = &level[n];
                let cur = self.node_at(path);
                let cur_ptr = MartPointer::new(cur.id(), cur.ntype());
                let ghost before = t.scan(*ptr, paths, first, n as int);
                proof {
                    assert(paths[n as int] == path@);
                    assert(cur@.ptr() == cur_ptr);
                }
                if !(seen(&visited, &cur_ptr) || cur_ptr.is_null_ptr() || cur_ptr.is_leaf()) {
                    visited.push(cur_ptr);
                    match cur.child_for(ptr) {
                        Some(i) => {
                            let found = extended(path, i);
                            proof {
                                assert(t.scan(*ptr, paths, first, n + 1).target == Some(found@));
                                lemma_scan_found(
                                    t,
                                    *ptr,
                                    paths,
                                    first,
                                    n + 1,
                                    paths.len() as int,
                                );
                            }
                            return Some(found);
                        },
                        None => {
                            let ghost old_next = next@;
                            let mut i: usize = 0;
                            proof {
                                cur.lemma_view();
                            }
                            while i < cur.children.len()
                                invariant
                                    i <= cur.children@.len(),
                                    cur@.children.len() == cur.children@.len(),
                                    t.valid(path@),
                                    path@.len() == depth,
                                    cur@ == t.at(path@),
                                    forall|k: int|
                                        0 <= k < next@.len() ==> t.valid(#[trigger] next@[k]@)
                                            && next@[k]@.len() == depth + 1,
                                    ways(next@) == ways(old_next) + Tree::child_paths(
                                        path@,
                                        i as nat,
                                    ),
                                decreases cur.children@.len() - i,
                            {
                                let child_path = extended(path, i);
                                proof {
                                    assert(child_path@.drop_last() =~= path@);
                                    assert(t.valid(child_path@));
                                }
                                let ghost prev = next@;
                                next.push(child_path);
                                proof {
                                    assert(ways(next@) =~= ways(prev).push(child_path@));
                                    assert(Tree::child_paths(path@, (i + 1) as nat)
                                        =~= Tree::child_paths(path@, i as nat).push(
                                        path@.push(i),
                                    ));
                                    assert(ways(next@) =~= ways(old_next) + Tree::child_paths(
                                        path@,
                                        (i + 1) as nat,
                                    ));
                                }
                                i = i + 1;
                            }
                        },
                    }
                }
                n = n + 1;
            }
            proof {
                assert(t.scan(*ptr, paths, first, paths.len() as int).target is None);
                if next@.len() > 0 {
                    lemma_path_height(t, next@[0]@);
                }
            }
            level = next;
            proof {
                depth = depth + 1;
            }
        }
        None
    }
}

impl MartTrieExport {
    /// The export without a tree.
    pub fn new() -> (r: Self)
        ensures
            r.root is None,
    {
        MartTrieExport { root: None }
    }

    /// Makes `node` the tree if there is none yet. Else adds the children
    /// of `node` to the first node of the tree that stands for `ptr` and
    /// is a child of a node that the walk through the tree looks at; if
    /// there is no such node, the tree stays as it is.
    pub fn insert(&mut self, ptr: &MartPointer, node: TrieNode)
        ensures
            final(self).root is Some,
            old(self).root is None ==> final(self).root->0@ == node@,
            old(self).root is Some ==> final(self).root->0@ == match old(self).root->0@.graft_target(
                *ptr,
            ) {
                Some(path) => old(self).root->0@.grafted(path, node@.children),
                None => old(self).root->0@,
            },
    {
        match self.root.take() {
            None => {
                self.root = Some(node);
            },
            Some(root) => {
                proof {
                    node.lemma_view();
                    lemma_trees_of(node.children@, node.children@.len() as int);
                    assert(node@.children =~= trees_of(node.children@, node.children@.len() as int));
                }
                match root.find_target(ptr) {
                    Some(path) => {
                        assert(path@.subrange(0, path@.len() as int) =~= path@);
                        let grown = root.graft(&path, 0, node.children);
                        self.root = Some(grown);
                    },
                    None => {
                        self.root = Some(root);
                    },
                }
            },
        }
    }
}

/// An index whose trie can be had as a tree.
pub trait MartExporter: Sized {
    /// The index is in order.
    spec fn exportable(&self) -> bool;

    /// The tree shows the trie of the index.
    spec fn shown_by(&self, export: &MartTrieExport) -> bool;

    fn export(self) -> (r: MartTrieExport)
        requires
            self.exportable(),
        ensures
            self.shown_by(&r),
    ;
}

impl MartExporter for MartIndex {
    open spec fn exportable(&self) -> bool {
        self.wf()
    }

    /// The tree stands for the root and shows all that lies below it.
    open spec fn shown_by(&self, export: &MartTrieExport) -> bool {
        &&& export.root is Some
        &&& export.root->0@.ptr() == self.m_rootptr
        &&& self.model().mirrors(export.root->0@)
    }

    fn export(self) -> (r: MartTrieExport) {
        let mut mart_export = MartTrieExport::new();
        let root = MartPointer::new(self.m_rootptr.nid(), self.m_rootptr.ntype());
        let tree = self.export_node(&root);
        mart_export.insert(&root, tree);
        mart_export
    }
}

impl MartIndex {
    /// The node or leaf that `ptr` refers to, with all that lies below it,
    /// as a tree.
    pub fn export_node(&self, ptr: &MartPointer) -> (r: TrieNode)
        requires
            self.wf(),
            ptr.ntype.is_inner() ==> self.model().heap.contains_key(*ptr),
        ensures
            r@.ptr() == *ptr,
            self.model().mirrors(r@),
        decreases self.width() - self.paths@[*ptr].len(),
    {
        let mut node = TrieNode::new(ptr.nid(), ptr.ntype());
        if !is_tier(ptr.ntype()) {
            return node;
        }
        let ghost m = self.model();
        let edges = self.perform_find_children(ptr);
        let mut i: usize = 0;
        while i < edges.len()
            invariant
                i <= edges@.len(),
                self.wf(),
                m == self.model(),
                m.heap.contains_key(*ptr),
                edges_map(edges@) == m.heap[*ptr],
                distinct_labels(edges@),
                node@.ptr() == *ptr,
                node@.children.len() == i,
                forall|j: int|
                    0 <= j < i ==> (#[trigger] node@.children[j]).0 == edges@[j].label
                        && node@.children[j].1.ptr() == edges@[j].ptr && m.mirrors(
                        node@.children[j].1,
                    ),
            decreases edges@.len() - i,
        {
            let edge = edges[i];
            proof {
                lemma_edges_map(edges@);
                assert(edges@[i as int].label == edge.label);
                assert(m.heap[*ptr].contains_key(edge.label));
                assert(m.heap[*ptr][edge.label] == edge.ptr);
                assert(m.edge_ok(*ptr, edge.label));
                assert(m.node_ok(*ptr));
            }
            let child = if is_tier(edge.ptr.ntype()) {
                self.export_node(&edge.ptr)
            } else {
                TrieNode::new(edge.ptr.nid(), edge.ptr.ntype())
            };
            node.insert(child, edge.label);
            i = i + 1;
        }
        proof {
            assert(node@.edges() =~= edges@);
        }
        node
    }
}

} // verus!
