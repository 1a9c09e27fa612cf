//! The nodes of all arenas together, and the children of the nodes that
//! are in use.

use crate::dyft::node::common::{MartNodeTypes, MartPointer, MART_NILID};
use crate::dyft::node::model::NodeModel;
use crate::dyft::node::traits::is_live;
use vstd::prelude::*;

verus! {

/// The nodes of each arena, by the tag of the tier.
pub type ArenaViews = Map<MartNodeTypes, Seq<Option<NodeModel>>>;

/// Whether `p` refers to a node in use.
pub open spec fn live_in(av: ArenaViews, p: MartPointer) -> bool {
    p.ntype.is_inner() && av.contains_key(p.ntype) && is_live(av[p.ntype], p.nid)
}

/// The node that `p` refers to.
pub open spec fn node_in(av: ArenaViews, p: MartPointer) -> NodeModel {
    av[p.ntype][p.nid as int]->0
}

/// The children of every node in use.
pub open spec fn heap_of(av: ArenaViews) -> Map<MartPointer, Map<u8, MartPointer>> {
    Map::new(|p: MartPointer| live_in(av, p), |p: MartPointer| node_in(av, p).edges)
}

/// The arenas after node `p` became `node`.
pub open spec fn with_node(av: ArenaViews, p: MartPointer, node: NodeModel) -> ArenaViews {
    av.insert(p.ntype, av[p.ntype].update(p.nid as int, Some(node)))
}

/// The arenas after node `p` was given back.
pub open spec fn without_node(av: ArenaViews, p: MartPointer) -> ArenaViews {
    av.insert(p.ntype, av[p.ntype].update(p.nid as int, None))
}

/// The arenas after node `p` was made as `node`: in place of a free node,
/// or as one more node of its arena.
pub open spec fn with_new_node(av: ArenaViews, p: MartPointer, node: NodeModel) -> ArenaViews {
    if p.nid < av[p.ntype].len() {
        with_node(av, p, node)
    } else {
        av.insert(p.ntype, av[p.ntype].push(Some(node)))
    }
}

/// Changing a node in use changes its children and nothing else.
pub proof fn lemma_with_node(av: ArenaViews, p: MartPointer, node: NodeModel)
    requires
        live_in(av, p),
    ensures
        heap_of(with_node(av, p, node)) == heap_of(av).insert(p, node.edges),
        forall|q: MartPointer| live_in(with_node(av, p, node), q) == live_in(av, q),
        forall|q: MartPointer|
            q != p && live_in(av, q) ==> node_in(with_node(av, p, node), q) == node_in(av, q),
        node_in(with_node(av, p, node), p) == node,
        with_node(av, p, node).dom() == av.dom(),
        grown(av, with_node(av, p, node), 0),
{
    let av2 = with_node(av, p, node);
    assert forall|q: MartPointer| live_in(av2, q) == live_in(av, q) by {}
    assert forall|q: MartPointer| q != p && live_in(av, q) implies node_in(av2, q) == node_in(
        av,
        q,
    ) by {}
    assert(heap_of(av2) =~= heap_of(av).insert(p, node.edges));
    assert(av2.dom() =~= av.dom());
}

/// Giving back a node in use takes it from the nodes in use.
pub proof fn lemma_without_node(av: ArenaViews, p: MartPointer)
    requires
        live_in(av, p),
    ensures
        heap_of(without_node(av, p)) == heap_of(av).remove(p),
        forall|q: MartPointer| live_in(without_node(av, p), q) == (live_in(av, q) && q != p),
        forall|q: MartPointer|
            q != p && live_in(av, q) ==> node_in(without_node(av, p), q) == node_in(av, q),
        without_node(av, p).dom() == av.dom(),
{
    let av2 = without_node(av, p);
    assert forall|q: MartPointer| live_in(av2, q) == (live_in(av, q) && q != p) by {}
    assert forall|q: MartPointer| q != p && live_in(av, q) implies node_in(av2, q) == node_in(
        av,
        q,
    ) by {}
    assert(heap_of(av2) =~= heap_of(av).remove(p));
    assert(av2.dom() =~= av.dom());
}

/// Making a node adds it to the nodes in use.
pub proof fn lemma_with_new_node(av: ArenaViews, p: MartPointer, node: NodeModel)
    requires
        p.ntype.is_inner(),
        av.contains_key(p.ntype),
        !live_in(av, p),
        p.nid <= av[p.ntype].len(),
    ensures
        heap_of(with_new_node(av, p, node)) == heap_of(av).insert(p, node.edges),
        forall|q: MartPointer| live_in(with_new_node(av, p, node), q) == (live_in(av, q) || q == p),
        forall|q: MartPointer|
            q != p && live_in(av, q) ==> node_in(with_new_node(av, p, node), q) == node_in(av, q),
        node_in(with_new_node(av, p, node), p) == node,
        with_new_node(av, p, node).dom() == av.dom(),
        grown(av, with_new_node(av, p, node), 1),
{
    let av2 = with_new_node(av, p, node);
    assert forall|q: MartPointer| live_in(av2, q) == (live_in(av, q) || q == p) by {}
    assert forall|q: MartPointer| q != p && live_in(av, q) implies node_in(av2, q) == node_in(
        av,
        q,
    ) by {}
    assert(heap_of(av2) =~= heap_of(av).insert(p, node.edges));
    assert(av2.dom() =~= av.dom());
}

/// Every arena has room for `n` more nodes.
pub open spec fn rooms(av: ArenaViews, n: int) -> bool {
    forall|t: MartNodeTypes| t.is_inner() ==> (#[trigger] av[t]).len() + n <= u32::MAX
}

/// No arena of `after` has more than `n` nodes more than in `before`.
pub open spec fn grown(before: ArenaViews, after: ArenaViews, n: int) -> bool {
    forall|t: MartNodeTypes| t.is_inner() ==> (#[trigger] after[t]).len() <= before[t].len() + n
}

/// The arenas after node `x` moved to the new node `x2`, its parent `p`
/// became `pn`, and `x2` became `n3`.
pub open spec fn moved(
    av: ArenaViews,
    x: MartPointer,
    x2: MartPointer,
    n2: NodeModel,
    p: MartPointer,
    pn: NodeModel,
    n3: NodeModel,
) -> ArenaViews {
    with_node(with_node(with_new_node(without_node(av, x), x2, n2), p, pn), x2, n3)
}

/// What the move of a node comes to among the nodes in use.
pub proof fn lemma_moved(
    av: ArenaViews,
    x: MartPointer,
    x2: MartPointer,
    n2: NodeModel,
    p: MartPointer,
    pn: NodeModel,
    n3: NodeModel,
)
    requires
        live_in(av, x),
        live_in(av, p),
        p != x,
        x2.ntype.is_inner(),
        av.contains_key(x2.ntype),
        x2.ntype != x.ntype,
        !live_in(av, x2),
        x2.nid <= av[x2.ntype].len(),
    ensures
        heap_of(moved(av, x, x2, n2, p, pn, n3)) == heap_of(av).remove(x).insert(p, pn.edges).insert(
            x2,
            n3.edges,
        ),
        forall|q: MartPointer|
            live_in(moved(av, x, x2, n2, p, pn, n3), q) == ((live_in(av, q) && q != x) || q == x2),
        forall|q: MartPointer|
            live_in(av, q) && q != x && q != p ==> node_in(moved(av, x, x2, n2, p, pn, n3), q)
                == node_in(av, q),
        node_in(moved(av, x, x2, n2, p, pn, n3), x2) == n3,
        node_in(moved(av, x, x2, n2, p, pn, n3), p) == pn,
        live_in(with_new_node(without_node(av, x), x2, n2), p),
        node_in(with_new_node(without_node(av, x), x2, n2), p) == node_in(av, p),
        node_in(with_new_node(without_node(av, x), x2, n2), x2) == n2,
        live_in(with_node(with_new_node(without_node(av, x), x2, n2), p, pn), x2),
        node_in(with_node(with_new_node(without_node(av, x), x2, n2), p, pn), x2) == n2,
        grown(av, moved(av, x, x2, n2, p, pn, n3), 1),
{
    let av0 = without_node(av, x);
    lemma_without_node(av, x);
    assert(av0[x2.ntype] == av[x2.ntype]);
    let av1 = with_new_node(av0, x2, n2);
    lemma_with_new_node(av0, x2, n2);
    let av2 = with_node(av1, p, pn);
    lemma_with_node(av1, p, pn);
    let av3 = with_node(av2, x2, n3);
    lemma_with_node(av2, x2, n3);
    assert(heap_of(av3) =~= heap_of(av).remove(x).insert(p, pn.edges).insert(x2, n3.edges));
}

} // verus!
