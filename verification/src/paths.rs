//! Walks and hop distances in a directed multigraph given by its edge list.
//!
//! An edge list is a `Seq<(int, int)>` of `(source, target)` node indices.
//! Everything here is specification and proof; the breadth-first search in
//! `graph_ops` is stated and verified against these definitions.

use vstd::prelude::*;

verus! {

/// There is an edge from `from` to `to`.
pub open spec fn has_edge(edges: Seq<(int, int)>, from: int, to: int) -> bool {
    edges.contains((from, to))
}

/// Position `i` of `walk` and its successor are joined by an edge.
pub open spec fn step_ok(edges: Seq<(int, int)>, walk: Seq<int>, i: int) -> bool {
    has_edge(edges, walk[i], walk[i + 1])
}

/// `walk` is a non-empty sequence of nodes, each joined to the next by an edge.
pub open spec fn is_walk(edges: Seq<(int, int)>, walk: Seq<int>) -> bool {
    &&& walk.len() > 0
    &&& forall|i: int| 0 <= i < walk.len() - 1 ==> #[trigger] step_ok(edges, walk, i)
}

/// `walk` leads from `from` to `to` along edges. It takes `walk.len() - 1` hops.
pub open spec fn connects(edges: Seq<(int, int)>, walk: Seq<int>, from: int, to: int) -> bool {
    &&& is_walk(edges, walk)
    &&& walk[0] == from
    &&& walk[walk.len() - 1] == to
}

/// Some walk leads from `from` to `to`.
pub open spec fn reachable(edges: Seq<(int, int)>, from: int, to: int) -> bool {
    exists|walk: Seq<int>| connects(edges, walk, from, to)
}

/// `hops` is the least number of hops of any walk from `from` to `to`.
pub open spec fn is_hop_distance(edges: Seq<(int, int)>, from: int, to: int, hops: nat) -> bool {
    &&& exists|walk: Seq<int>| #[trigger] connects(edges, walk, from, to) && walk.len() == hops + 1
    &&& forall|walk: Seq<int>| #[trigger] connects(edges, walk, from, to) ==> walk.len() >= hops + 1
}

/// The length of a shortest walk from `from` to `to`, or `None` when `to`
/// cannot be reached.
pub open spec fn hop_distance(edges: Seq<(int, int)>, from: int, to: int) -> Option<nat> {
    if reachable(edges, from, to) {
        Some(choose|hops: nat| is_hop_distance(edges, from, to, hops))
    } else {
        None
    }
}

/// Every edge has a matching edge in the opposite direction.
pub open spec fn has_reverse_edges(edges: Seq<(int, int)>) -> bool {
    forall|from: int, to: int| #[trigger] has_edge(edges, from, to) ==> has_edge(edges, to, from)
}

/// A walk can be extended by one edge out of its last node.
pub proof fn lemma_extend_walk(
    edges: Seq<(int, int)>,
    walk: Seq<int>,
    from: int,
    via: int,
    to: int,
)
    requires
        connects(edges, walk, from, via),
        has_edge(edges, via, to),
    ensures
        connects(edges, walk.push(to), from, to),
        walk.push(to).len() == walk.len() + 1,
{
    let longer = walk.push(to);
    assert forall|i: int| 0 <= i < longer.len() - 1 implies #[trigger] step_ok(
        edges,
        longer,
        i,
    ) by {
        if i < walk.len() - 1 {
            assert(step_ok(edges, walk, i));
        }
    }
}

/// A walk of more than one node ends with an edge, and what precedes that
/// edge is a walk from the same start.
pub proof fn lemma_shorten_walk(edges: Seq<(int, int)>, walk: Seq<int>, from: int, to: int)
    requires
        connects(edges, walk, from, to),
        walk.len() > 1,
    ensures
        connects(edges, walk.drop_last(), from, walk[walk.len() - 2]),
        has_edge(edges, walk[walk.len() - 2], to),
{
    let shorter = walk.drop_last();
    assert forall|i: int| 0 <= i < shorter.len() - 1 implies #[trigger] step_ok(
        edges,
        shorter,
        i,
    ) by {
        assert(step_ok(edges, walk, i));
    }
    assert(step_ok(edges, walk, walk.len() - 2));
}

/// Among the walks between two nodes there is a shortest one.
pub proof fn lemma_shortest_walk_exists(
    edges: Seq<(int, int)>,
    walk: Seq<int>,
    from: int,
    to: int,
)
    requires
        connects(edges, walk, from, to),
    ensures
        exists|hops: nat| is_hop_distance(edges, from, to, hops),
    decreases walk.len(),
{
    if exists|other: Seq<int>| #[trigger] connects(edges, other, from, to) && other.len() < walk.len() {
        let other = choose|other: Seq<int>| #[trigger]
            connects(edges, other, from, to) && other.len() < walk.len();
        lemma_shortest_walk_exists(edges, other, from, to);
    } else {
        let hops = (walk.len() - 1) as nat;
        assert(is_hop_distance(edges, from, to, hops));
    }
}

/// The hop distance is `Some(hops)` exactly when `hops` is the least number
/// of hops, and `None` exactly when there is no walk at all.
pub proof fn lemma_hop_distance(edges: Seq<(int, int)>, from: int, to: int)
    ensures
        forall|hops: nat|
            hop_distance(edges, from, to) == Some(hops) <==> #[trigger] is_hop_distance(
                edges,
                from,
                to,
                hops,
            ),
        hop_distance(edges, from, to) is None <==> !reachable(edges, from, to),
{
    if reachable(edges, from, to) {
        let walk = choose|walk: Seq<int>| connects(edges, walk, from, to);
        lemma_shortest_walk_exists(edges, walk, from, to);
        let least = choose|hops: nat| is_hop_distance(edges, from, to, hops);
        assert forall|hops: nat| #[trigger] is_hop_distance(edges, from, to, hops) implies hops
            == least by {
            let w1 = choose|w: Seq<int>| #[trigger]
                connects(edges, w, from, to) && w.len() == hops + 1;
            let w2 = choose|w: Seq<int>| #[trigger]
                connects(edges, w, from, to) && w.len() == least + 1;
            assert(w1.len() >= least + 1);
            assert(w2.len() >= hops + 1);
        }
    } else {
        assert forall|hops: nat| !#[trigger] is_hop_distance(edges, from, to, hops) by {
            if is_hop_distance(edges, from, to, hops) {
                let w = choose|w: Seq<int>| #[trigger]
                    connects(edges, w, from, to) && w.len() == hops + 1;
                assert(reachable(edges, from, to));
            }
        }
    }
}

/// Every node is at hop distance 0 from itself.
pub proof fn lemma_self_distance(edges: Seq<(int, int)>, node: int)
    ensures
        hop_distance(edges, node, node) == Some(0nat),
{
    let trivial = seq![node];
    assert(connects(edges, trivial, node, node));
    assert(is_hop_distance(edges, node, node, 0));
    lemma_hop_distance(edges, node, node);
}

/// Where every edge has a reverse edge, a walk read backwards is a walk.
pub proof fn lemma_reverse_walk(edges: Seq<(int, int)>, walk: Seq<int>, from: int, to: int)
    requires
        has_reverse_edges(edges),
        connects(edges, walk, from, to),
    ensures
        connects(edges, walk.reverse(), to, from),
        walk.reverse().len() == walk.len(),
{
    let back = walk.reverse();
    assert forall|i: int| 0 <= i < back.len() - 1 implies #[trigger] step_ok(edges, back, i) by {
        let j = walk.len() - 2 - i;
        assert(step_ok(edges, walk, j));
        assert(back[i] == walk[j + 1]);
        assert(back[i + 1] == walk[j]);
    }
}

/// Where every edge has a reverse edge, hop distance is symmetric. On a
/// graph without that property it need not be.
pub proof fn lemma_distance_symmetric(edges: Seq<(int, int)>, a: int, b: int)
    requires
        has_reverse_edges(edges),
    ensures
        hop_distance(edges, a, b) == hop_distance(edges, b, a),
{
    lemma_hop_distance(edges, a, b);
    lemma_hop_distance(edges, b, a);
    lemma_symmetric_one_way(edges, a, b);
    lemma_symmetric_one_way(edges, b, a);
    if reachable(edges, a, b) {
        let hops = hop_distance(edges, a, b)->0;
        assert(is_hop_distance(edges, a, b, hops));
        assert(is_hop_distance(edges, b, a, hops));
    }
}

proof fn lemma_symmetric_one_way(edges: Seq<(int, int)>, a: int, b: int)
    requires
        has_reverse_edges(edges),
    ensures
        reachable(edges, a, b) ==> reachable(edges, b, a),
        forall|hops: nat| #[trigger]
            is_hop_distance(edges, a, b, hops) ==> is_hop_distance(edges, b, a, hops),
{
    assert forall|walk: Seq<int>| #[trigger] connects(edges, walk, a, b) implies connects(
        edges,
        walk.reverse(),
        b,
        a,
    ) && walk.reverse().len() == walk.len() by {
        lemma_reverse_walk(edges, walk, a, b);
    }
    assert forall|walk: Seq<int>| #[trigger] connects(edges, walk, b, a) implies connects(
        edges,
        walk.reverse(),
        a,
        b,
    ) && walk.reverse().len() == walk.len() by {
        lemma_reverse_walk(edges, walk, b, a);
    }
    if reachable(edges, a, b) {
        let walk = choose|walk: Seq<int>| connects(edges, walk, a, b);
        assert(connects(edges, walk.reverse(), b, a));
    }
    assert forall|hops: nat| #[trigger] is_hop_distance(edges, a, b, hops) implies is_hop_distance(
        edges,
        b,
        a,
        hops,
    ) by {
        let w = choose|w: Seq<int>| #[trigger] connects(edges, w, a, b) && w.len() == hops + 1;
        assert(connects(edges, w.reverse(), b, a));
        assert forall|other: Seq<int>| #[trigger] connects(edges, other, b, a) implies other.len()
            >= hops + 1 by {
            assert(connects(edges, other.reverse(), a, b));
        }
    }
}

} // verus!
