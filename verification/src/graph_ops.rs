//! Building a `petgraph` digraph from an edge list, breadth-first search
//! and degree statistics.

use crate::edge_list::{
    data_line_count, edge_pairs, first_malformed, lemma_pairs_count, read_edge_list, text_of,
    well_formed,
};
use crate::error::GraphError;
use crate::histogram::{
    add_count, degree_histogram, lemma_histogram_step, lemma_nodes_with_degree_bound,
    lemma_total_insert, nodes_with_degree, out_degree, total_count,
};
use crate::paths::{
    connects, has_edge, hop_distance, is_hop_distance, lemma_extend_walk, lemma_hop_distance,
    lemma_shorten_walk, reachable,
};
use crate::petgraph_model::{
    add_edge, add_node, empty_graph, graph_edges, graph_nodes, lemma_out_targets, neighbors,
    neighbors_outgoing, node_count, node_indices, out_targets,
};
pub use petgraph::graph::{DiGraph, NodeIndex};
use std::collections::HashMap;
use std::collections::VecDeque;
use vstd::prelude::*;

verus! {

/// The largest number of lines from which a graph is built. Node and edge
/// indices are 32 bits wide, and every line can bring two new nodes.
pub const MAX_EDGE_LINES: usize = 0x7fff_ffff;

/// The identifiers named by `pairs`, source before target, in pair order.
pub open spec fn endpoints(pairs: Seq<(u32, u32)>) -> Seq<u32>
    decreases pairs.len(),
{
    if pairs.len() == 0 {
        Seq::empty()
    } else {
        endpoints(pairs.drop_last()).push(pairs.last().0).push(pairs.last().1)
    }
}

/// `nodes`, extended by `id` unless it is already there.
pub open spec fn with_id(nodes: Seq<u32>, id: u32) -> Seq<u32> {
    if nodes.contains(id) {
        nodes
    } else {
        nodes.push(id)
    }
}

/// The distinct identifiers of `ids`, each at the place of its first
/// occurrence.
pub open spec fn first_seen(ids: Seq<u32>) -> Seq<u32>
    decreases ids.len(),
{
    if ids.len() == 0 {
        Seq::empty()
    } else {
        with_id(first_seen(ids.drop_last()), ids.last())
    }
}

/// A graph with node weights `nodes` and edge list `edges` is the graph of
/// the identifier pairs `pairs`: its nodes are the distinct identifiers in
/// first-seen order, and edge `k` joins the nodes that carry the identifiers
/// of pair `k`.
pub open spec fn represents(nodes: Seq<u32>, edges: Seq<(int, int)>, pairs: Seq<(u32, u32)>) -> bool {
    &&& nodes == first_seen(endpoints(pairs))
    &&& edges.len() == pairs.len()
    &&& forall|k: int|
        0 <= k < pairs.len() ==> {
            let (from, to) = #[trigger] edges[k];
            &&& 0 <= from < nodes.len()
            &&& 0 <= to < nodes.len()
            &&& nodes[from] == pairs[k].0
            &&& nodes[to] == pairs[k].1
        }
}

/// First-seen order keeps each identifier once: the result has no
/// repetitions and holds exactly the identifiers of `ids`, so its length is
/// the number of distinct identifiers.
pub proof fn lemma_first_seen(ids: Seq<u32>)
    ensures
        first_seen(ids).no_duplicates(),
        forall|id: u32| first_seen(ids).contains(id) <==> ids.contains(id),
        first_seen(ids).to_set() == ids.to_set(),
        first_seen(ids).len() == ids.to_set().len(),
        first_seen(ids).len() <= ids.len(),
    decreases ids.len(),
{
    let nodes = first_seen(ids);
    if ids.len() == 0 {
        assert forall|id: u32| !ids.contains(id) by {}
    } else {
        let before = ids.drop_last();
        let last = ids.last();
        lemma_first_seen(before);
        let kept = first_seen(before);
        assert forall|id: u32| nodes.contains(id) <==> ids.contains(id) by {
            if nodes.contains(id) {
                let i = choose|i: int| 0 <= i < nodes.len() && nodes[i] == id;
                if i < kept.len() {
                    assert(kept[i] == id);
                    assert(kept.contains(id));
                    assert(before.contains(id));
                    let j = choose|j: int| 0 <= j < before.len() && before[j] == id;
                    assert(ids[j] == id);
                } else {
                    assert(ids[ids.len() - 1] == id);
                }
            }
            if ids.contains(id) {
                let j = choose|j: int| 0 <= j < ids.len() && ids[j] == id;
                if j < before.len() {
                    assert(before[j] == id);
                    assert(before.contains(id));
                    assert(kept.contains(id));
                    let i = choose|i: int| 0 <= i < kept.len() && kept[i] == id;
                    assert(nodes[i] == id);
                } else if kept.contains(last) {
                } else {
                    assert(nodes[kept.len() as int] == id);
                }
            }
        }
    }
    assert(nodes.to_set() =~= ids.to_set());
    nodes.unique_seq_to_set();
}

/// Every pair names two identifiers.
proof fn lemma_endpoints_len(pairs: Seq<(u32, u32)>)
    ensures
        endpoints(pairs).len() == 2 * pairs.len(),
    decreases pairs.len(),
{
    if pairs.len() > 0 {
        lemma_endpoints_len(pairs.drop_last());
    }
}

/// The lookup table `index_of` maps exactly the identifiers of `nodes`, each
/// to the index at which `nodes` holds it.
spec fn indexed(nodes: Seq<u32>, index_of: Map<u32, usize>) -> bool {
    &&& forall|id: u32| index_of.contains_key(id) <==> nodes.contains(id)
    &&& forall|id: u32| #[trigger]
        index_of.contains_key(id) ==> index_of[id] < nodes.len() && nodes[index_of[id] as int]
            == id
}

/// Finds the node that carries `id`, adding it to the graph if `id` has not
/// been seen before.
fn node_for(graph: &mut DiGraph<u32, ()>, index_of: &mut HashMap<u32, usize>, id: u32) -> (index:
    usize)
    requires
        indexed(graph_nodes(*old(graph)), old(index_of)@),
        graph_nodes(*old(graph)).len() < u32::MAX,
    ensures
        indexed(graph_nodes(*final(graph)), final(index_of)@),
        graph_nodes(*final(graph)) == with_id(graph_nodes(*old(graph)), id),
        graph_edges(*final(graph)) == graph_edges(*old(graph)),
        index < graph_nodes(*final(graph)).len(),
        graph_nodes(*final(graph))[index as int] == id,
{
    broadcast use vstd::std_specs::hash::group_hash_axioms;

    let ghost nodes = graph_nodes(*graph);
    let known = match index_of.get(&id) {
        Some(index) => Some(*index),
        None => None,
    };
    match known {
        Some(index) => index,
        None => {
            let index = add_node(graph, id);
            index_of.insert(id, index);
            proof {
                let longer = nodes.push(id);
                assert(longer[index as int] == id);
                assert forall|other: u32| index_of@.contains_key(other) <==> longer.contains(
                    other,
                ) by {
                    if nodes.contains(other) {
                        let i = choose|i: int| 0 <= i < nodes.len() && nodes[i] == other;
                        assert(longer[i] == other);
                    }
                    if longer.contains(other) && other != id {
                        let i = choose|i: int| 0 <= i < longer.len() && longer[i] == other;
                        assert(nodes[i] == other);
                    }
                }
            }
            index
        },
    }
}

/// Builds the graph of a sequence of identifier pairs: one node per distinct
/// identifier, numbered in first-seen order, and one edge per pair.
pub fn build_graph(pairs: &Vec<(u32, u32)>) -> (graph: DiGraph<u32, ()>)
    requires
        pairs.len() <= MAX_EDGE_LINES,
    ensures
        represents(graph_nodes(graph), graph_edges(graph), pairs@),
{
    let mut graph = empty_graph();
    let mut index_of: HashMap<u32, usize> = HashMap::new();
    let mut k: usize = 0;
    assert(pairs@.take(0) == Seq::<(u32, u32)>::empty());
    assert(indexed(graph_nodes(graph), index_of@)) by {
        assert forall|id: u32| !graph_nodes(graph).contains(id) by {}
    }
    while k < pairs.len()
        invariant
            k <= pairs.len() <= MAX_EDGE_LINES,
            indexed(graph_nodes(graph), index_of@),
            represents(graph_nodes(graph), graph_edges(graph), pairs@.take(k as int)),
        decreases pairs.len() - k,
    {
        let ghost seen = pairs@.take(k as int);
        let ghost longer = pairs@.take(k + 1);
        let ghost nodes = graph_nodes(graph);
        let ghost edges = graph_edges(graph);
        proof {
            lemma_endpoints_len(seen);
            lemma_first_seen(endpoints(seen));
            assert(longer.drop_last() == seen);
            assert(longer.last() == pairs@[k as int]);
        }
        let (from_id, to_id) = pairs[k];
        let from_index = node_for(&mut graph, &mut index_of, from_id);
        let ghost middle = graph_nodes(graph);
        let to_index = node_for(&mut graph, &mut index_of, to_id);
        add_edge(&mut graph, from_index, to_index);
        proof {
            let grown = graph_nodes(graph);
            let ids = endpoints(seen);
            assert(endpoints(longer) == ids.push(from_id).push(to_id));
            assert(ids.push(from_id).drop_last() == ids);
            assert(ids.push(from_id).push(to_id).drop_last() == ids.push(from_id));
            assert(first_seen(ids.push(from_id)) == with_id(first_seen(ids), from_id));
            assert(first_seen(ids.push(from_id).push(to_id)) == with_id(
                first_seen(ids.push(from_id)),
                to_id,
            ));
            assert(grown == first_seen(endpoints(longer)));
            assert forall|i: int| 0 <= i < nodes.len() implies grown[i] == nodes[i] by {
                assert(middle[i] == nodes[i]);
            }
            assert(grown[from_index as int] == from_id) by {
                assert(middle[from_index as int] == from_id);
            }
            assert forall|j: int| 0 <= j < longer.len() implies {
                let (from, to) = #[trigger] graph_edges(graph)[j];
                &&& 0 <= from < grown.len()
                &&& 0 <= to < grown.len()
                &&& grown[from] == longer[j].0
                &&& grown[to] == longer[j].1
            } by {
                if j < k {
                    assert(graph_edges(graph)[j] == edges[j]);
                    assert(longer[j] == seen[j]);
                }
            }
        }
        k += 1;
    }
    assert(pairs@.take(pairs.len() as int) == pairs@);
    graph
}

/// Builds the graph described by the lines of an edge list.
///
/// Comment lines are skipped. Each other line adds one edge between the
/// nodes that carry its two identifiers; an identifier gets a node, with the
/// next free index, when it is first seen. A malformed line stops the
/// construction: the error names the first such line and no graph is
/// returned.
pub fn construct_graph(lines: &Vec<String>) -> (result: Result<DiGraph<u32, ()>, GraphError>)
    requires
        lines.len() <= MAX_EDGE_LINES,
    ensures
        match result {
            Ok(graph) => {
                &&& well_formed(text_of(lines@))
                &&& represents(
                    graph_nodes(graph),
                    graph_edges(graph),
                    edge_pairs(text_of(lines@)),
                )
                &&& graph_edges(graph).len() == data_line_count(text_of(lines@))
                &&& graph_nodes(graph).len() == endpoints(
                    edge_pairs(text_of(lines@)),
                ).to_set().len()
            },
            Err(error) => error matches GraphError::MalformedInput { line } && first_malformed(
                text_of(lines@),
                line as int,
            ),
        },
{
    match read_edge_list(lines) {
        Ok(pairs) => {
            proof {
                lemma_pairs_count(text_of(lines@));
                lemma_first_seen(endpoints(pairs@));
            }
            Ok(build_graph(&pairs))
        },
        Err(error) => Err(error),
    }
}

/// A stored distance read as a number of hops.
pub open spec fn as_hops(entry: Option<u32>) -> Option<nat> {
    match entry {
        Some(hops) => Some(hops as nat),
        None => None,
    }
}

/// The hop distances from `start` to each of the first `n` nodes, as a
/// search stores them. Hop distances between nodes of a graph are below its
/// node count, so they fit in 32 bits whenever the node indices do.
pub open spec fn distances_from(edges: Seq<(int, int)>, n: nat, start: int) -> Seq<Option<u32>> {
    Seq::new(
        n,
        |v: int|
            match hop_distance(edges, start, v) {
                Some(hops) => Some(hops as u32),
                None => None,
            },
    )
}

/// The distance stored for a discovered node.
spec fn dist_at(dist: Seq<Option<u32>>, node: int) -> int {
    dist[node]->0 as int
}

/// Node `to` has been discovered no more than one hop after `from`.
spec fn relaxed(n: int, dist: Seq<Option<u32>>, from: int, to: int) -> bool {
    &&& 0 <= to < n
    &&& dist[to] is Some
    &&& dist_at(dist, to) <= dist_at(dist, from) + 1
}

/// The state of a search from `start`: `order` lists the discovered nodes in
/// the order of their discovery, the first `done` of them have had all their
/// out-edges followed, and `walks[v]` is a walk that witnesses `dist[v]`.
spec fn search_inv(
    edges: Seq<(int, int)>,
    n: int,
    start: int,
    dist: Seq<Option<u32>>,
    order: Seq<int>,
    done: int,
    walks: Seq<Seq<int>>,
) -> bool {
    &&& dist.len() == n
    &&& walks.len() == n
    &&& 0 <= done <= order.len()
    &&& 0 <= start < n
    &&& order.len() >= 1
    &&& order[0] == start
    &&& dist[start] == Some(0u32)
    &&& order.no_duplicates()
    &&& forall|i: int| 0 <= i < order.len() ==> 0 <= #[trigger] order[i] < n
    &&& forall|i: int| 0 <= i < order.len() ==> dist[#[trigger] order[i]] is Some
    &&& forall|v: int| 0 <= v < n && (#[trigger] dist[v]) is Some ==> order.contains(v)
    &&& forall|i: int, j: int|
        0 <= i <= j < order.len() ==> dist_at(dist, #[trigger] order[i]) <= dist_at(
            dist,
            #[trigger] order[j],
        )
    &&& forall|i: int| 0 <= i < order.len() ==> dist_at(dist, #[trigger] order[i]) <= i
    &&& forall|v: int|
        0 <= v < n && (#[trigger] dist[v]) is Some ==> connects(edges, walks[v], start, v)
            && walks[v].len() == dist_at(dist, v) + 1
    &&& forall|i: int, w: int|
        0 <= i < done && #[trigger] has_edge(edges, order[i], w) ==> relaxed(n, dist, order[i], w)
}

/// The most recently discovered node is at most one hop further than the
/// node at the head of the queue.
spec fn span_ok(dist: Seq<Option<u32>>, order: Seq<int>, done: int) -> bool {
    done < order.len() ==> dist_at(dist, order[order.len() - 1]) <= dist_at(dist, order[done]) + 1
}

/// Distinct nodes of a graph with `n` nodes are at most `n`.
proof fn lemma_order_bounded(order: Seq<int>, n: int)
    requires
        0 <= n,
        order.no_duplicates(),
        forall|i: int| 0 <= i < order.len() ==> 0 <= #[trigger] order[i] < n,
    ensures
        order.len() <= n,
{
    order.unique_seq_to_set();
    vstd::set_lib::lemma_int_range(0, n);
    assert forall|v: int| order.to_set().contains(v) implies vstd::set_lib::set_int_range(
        0,
        n,
    ).contains(v) by {
        let i = choose|i: int| 0 <= i < order.len() && order[i] == v;
        assert(0 <= order[i] < n);
    }
    vstd::set_lib::lemma_len_subset(order.to_set(), vstd::set_lib::set_int_range(0, n));
}

/// The search state with only the start discovered.
proof fn lemma_start(edges: Seq<(int, int)>, n: int, start: int, dist: Seq<Option<u32>>)
    requires
        0 <= start < n,
        dist.len() == n,
        dist[start] == Some(0u32),
        forall|v: int| 0 <= v < n && v != start ==> (#[trigger] dist[v]) is None,
    ensures
        search_inv(edges, n, start, dist, seq![start], 0, Seq::new(n as nat, |v: int| seq![start])),
        span_ok(dist, seq![start], 0),
{
    let order = seq![start];
    let walks = Seq::new(n as nat, |v: int| seq![start]);
    assert(order[0] == start);
    assert(connects(edges, walks[start], start, start));
    assert forall|v: int| 0 <= v < n && (#[trigger] dist[v]) is Some implies order.contains(v) by {
        assert(v == start);
    }
}

/// Following an edge out of the head of the queue to an undiscovered node
/// `next` and recording it one hop after the head keeps the search state.
/// The recorded distance stays below the node count.
proof fn lemma_discover(
    edges: Seq<(int, int)>,
    n: int,
    start: int,
    dist: Seq<Option<u32>>,
    order: Seq<int>,
    done: int,
    walks: Seq<Seq<int>>,
    next: int,
)
    requires
        search_inv(edges, n, start, dist, order, done, walks),
        span_ok(dist, order, done),
        done < order.len(),
        has_edge(edges, order[done], next),
        0 <= next < n,
        dist[next] is None,
        n <= u32::MAX,
    ensures
        dist_at(dist, order[done]) + 1 < n,
        ({
            let hops = (dist_at(dist, order[done]) + 1) as u32;
            let dist2 = dist.update(next, Some(hops));
            let order2 = order.push(next);
            let walks2 = walks.update(next, walks[order[done]].push(next));
            &&& search_inv(edges, n, start, dist2, order2, done, walks2)
            &&& span_ok(dist2, order2, done)
            &&& forall|w: int|
                relaxed(n, dist, order[done], w) ==> #[trigger] relaxed(n, dist2, order[done], w)
        }),
{
    let from = order[done];
    let cur = dist_at(dist, from);
    let order2 = order.push(next);
    assert(!order.contains(next)) by {
        if order.contains(next) {
            let i = choose|i: int| 0 <= i < order.len() && order[i] == next;
            assert(dist[order[i]] is Some);
        }
    }
    assert(order2.no_duplicates());
    assert forall|i: int| 0 <= i < order2.len() implies 0 <= #[trigger] order2[i] < n by {
        if i < order.len() {
            assert(order2[i] == order[i]);
        }
    }
    lemma_order_bounded(order2, n);
    assert(cur <= done);
    let hops = (cur + 1) as u32;
    let dist2 = dist.update(next, Some(hops));
    let walks2 = walks.update(next, walks[from].push(next));
    assert forall|v: int| 0 <= v < n && v != next implies dist2[v] == dist[v] && walks2[v]
        == walks[v] by {}
    assert forall|i: int| 0 <= i < order.len() implies order2[i] == order[i] && order[i] != next
        && dist_at(dist2, order[i]) == dist_at(dist, order[i]) by {
        assert(dist[order[i]] is Some);
    }
    assert forall|i: int| 0 <= i < order2.len() implies dist2[#[trigger] order2[i]] is Some by {
        if i < order.len() {
            assert(order2[i] == order[i]);
            assert(dist[order[i]] is Some);
        }
    }
    assert forall|v: int| 0 <= v < n && (#[trigger] dist2[v]) is Some implies order2.contains(
        v,
    ) by {
        if v == next {
            assert(order2[order.len() as int] == next);
        } else {
            assert(dist[v] is Some);
            let i = choose|i: int| 0 <= i < order.len() && order[i] == v;
            assert(order2[i] == v);
        }
    }
    assert forall|i: int, j: int| 0 <= i <= j < order2.len() implies dist_at(
        dist2,
        #[trigger] order2[i],
    ) <= dist_at(dist2, #[trigger] order2[j]) by {
        let last = order.len() - 1;
        if j < order.len() {
            assert(dist_at(dist, order[i]) <= dist_at(dist, order[j]));
        } else if i < order.len() {
            assert(dist_at(dist, order[i]) <= dist_at(dist, order[last]));
        }
    }
    assert forall|i: int| 0 <= i < order2.len() implies dist_at(dist2, #[trigger] order2[i])
        <= i by {
        if i < order.len() {
            assert(dist_at(dist, order[i]) <= i);
        }
    }
    assert(dist[from] is Some);
    lemma_extend_walk(edges, walks[from], start, from, next);
    assert forall|v: int| 0 <= v < n && (#[trigger] dist2[v]) is Some implies connects(
        edges,
        walks2[v],
        start,
        v,
    ) && walks2[v].len() == dist_at(dist2, v) + 1 by {
        if v != next {
            assert(dist[v] is Some);
        }
    }
    assert forall|i: int, w: int| 0 <= i < done && #[trigger] has_edge(
        edges,
        order2[i],
        w,
    ) implies relaxed(n, dist2, order2[i], w) by {
        assert(order2[i] == order[i]);
        assert(relaxed(n, dist, order[i], w));
    }
    assert(dist_at(dist2, order2[order2.len() - 1]) == cur + 1);
    assert(dist_at(dist2, order2[done]) == cur);
}

/// A node that is already discovered lies at most one hop after the head of
/// the queue.
proof fn lemma_seen(
    edges: Seq<(int, int)>,
    n: int,
    start: int,
    dist: Seq<Option<u32>>,
    order: Seq<int>,
    done: int,
    walks: Seq<Seq<int>>,
    next: int,
)
    requires
        search_inv(edges, n, start, dist, order, done, walks),
        span_ok(dist, order, done),
        done < order.len(),
        0 <= next < n,
        dist[next] is Some,
    ensures
        relaxed(n, dist, order[done], next),
{
    let i = choose|i: int| 0 <= i < order.len() && order[i] == next;
    let last = order.len() - 1;
    assert(dist_at(dist, order[i]) <= dist_at(dist, order[last]));
}

/// Once every edge out of the head of the queue has been followed, the head
/// is settled.
proof fn lemma_settle(
    edges: Seq<(int, int)>,
    n: int,
    start: int,
    dist: Seq<Option<u32>>,
    order: Seq<int>,
    done: int,
    walks: Seq<Seq<int>>,
)
    requires
        search_inv(edges, n, start, dist, order, done, walks),
        span_ok(dist, order, done),
        done < order.len(),
        forall|w: int| #[trigger]
            has_edge(edges, order[done], w) ==> relaxed(n, dist, order[done], w),
    ensures
        search_inv(edges, n, start, dist, order, done + 1, walks),
        span_ok(dist, order, done + 1),
{
    if done + 1 < order.len() {
        assert(dist_at(dist, order[done]) <= dist_at(dist, order[done + 1]));
    }
}

/// Once every discovered node is settled, any walk from the start ends in a
/// discovered node whose stored distance does not exceed the walk's hops.
proof fn lemma_walk_bound(
    edges: Seq<(int, int)>,
    n: int,
    start: int,
    dist: Seq<Option<u32>>,
    order: Seq<int>,
    walks: Seq<Seq<int>>,
    walk: Seq<int>,
    to: int,
)
    requires
        search_inv(edges, n, start, dist, order, order.len() as int, walks),
        connects(edges, walk, start, to),
    ensures
        0 <= to < n,
        dist[to] is Some,
        dist_at(dist, to) + 1 <= walk.len(),
    decreases walk.len(),
{
    if walk.len() > 1 {
        let via = walk[walk.len() - 2];
        lemma_shorten_walk(edges, walk, start, to);
        lemma_walk_bound(edges, n, start, dist, order, walks, walk.drop_last(), via);
        let i = choose|i: int| 0 <= i < order.len() && order[i] == via;
        assert(has_edge(edges, order[i], to));
        assert(relaxed(n, dist, order[i], to));
    }
}

/// When the queue has run empty, the stored distances are the hop distances.
proof fn lemma_finish(
    edges: Seq<(int, int)>,
    n: int,
    start: int,
    dist: Seq<Option<u32>>,
    order: Seq<int>,
    walks: Seq<Seq<int>>,
)
    requires
        search_inv(edges, n, start, dist, order, order.len() as int, walks),
    ensures
        forall|v: int| 0 <= v < n ==> as_hops(#[trigger] dist[v]) == hop_distance(edges, start, v),
        dist == distances_from(edges, n as nat, start),
{
    assert forall|v: int| 0 <= v < n implies as_hops(#[trigger] dist[v]) == hop_distance(
        edges,
        start,
        v,
    ) by {
        lemma_hop_distance(edges, start, v);
        assert forall|walk: Seq<int>| #[trigger] connects(edges, walk, start, v) implies dist[v]
            is Some && dist_at(dist, v) + 1 <= walk.len() by {
            lemma_walk_bound(edges, n, start, dist, order, walks, walk, v);
        }
        if dist[v] is Some {
            let hops = dist_at(dist, v) as nat;
            assert(connects(edges, walks[v], start, v) && walks[v].len() == hops + 1);
            assert(is_hop_distance(edges, start, v, hops));
        } else {
            assert(!reachable(edges, start, v));
        }
    }
    assert(dist =~= distances_from(edges, n as nat, start));
}

/// Computes, by breadth-first search, the hop distance from `start_index` to
/// every node of `graph`.
///
/// Entry `v` of the result is `Some(d)` when the shortest walk from
/// `start_index` to node `v` takes `d` hops, and `None` when there is no such
/// walk. The start itself is at distance 0.
pub fn bfs_shortest_paths(graph: &DiGraph<u32, ()>, start_index: usize) -> (distances: Vec<
    Option<u32>,
>)
    requires
        start_index < graph_nodes(*graph).len(),
    ensures
        distances.len() == graph_nodes(*graph).len(),
        forall|v: int|
            0 <= v < distances.len() ==> as_hops(#[trigger] distances[v]) == hop_distance(
                graph_edges(*graph),
                start_index as int,
                v,
            ),
        distances[start_index as int] == Some(0u32),
        distances@ == distances_from(
            graph_edges(*graph),
            graph_nodes(*graph).len(),
            start_index as int,
        ),
{
    let n = node_count(graph);
    let mut distances: Vec<Option<u32>> = vec![None; n];
    assert(forall|v: int| 0 <= v < n ==> (#[trigger] distances[v]) is None);
    let mut visit_queue: VecDeque<usize> = VecDeque::new();
    distances.set(start_index, Some(0));
    visit_queue.push_back(start_index);

    let ghost edges = graph_edges(*graph);
    let ghost start = start_index as int;
    let ghost mut order: Seq<int> = seq![start];
    let ghost mut done: int = 0;
    let ghost mut walks: Seq<Seq<int>> = Seq::new(n as nat, |v: int| seq![start]);
    proof {
        lemma_start(edges, n as int, start, distances@);
    }

    while visit_queue.len() > 0
        invariant
            n == graph_nodes(*graph).len(),
            n <= u32::MAX,
            edges == graph_edges(*graph),
            start == start_index,
            search_inv(edges, n as int, start, distances@, order, done, walks),
            span_ok(distances@, order, done),
            visit_queue.len() == order.len() - done,
            forall|i: int| 0 <= i < visit_queue.len() ==> #[trigger] visit_queue@[i] == order[done + i],
        decreases n - done,
    {
        proof {
            lemma_order_bounded(order, n as int);
        }
        let node = visit_queue.pop_front().unwrap();
        assert(node == order[done]);
        let current_distance = distances[node].unwrap();
        let targets = neighbors(graph, node);
        let mut j: usize = 0;
        while j < targets.len()
            invariant
                n == graph_nodes(*graph).len(),
                n <= u32::MAX,
                edges == graph_edges(*graph),
                search_inv(edges, n as int, start, distances@, order, done, walks),
                span_ok(distances@, order, done),
                done < order.len(),
                node == order[done],
                distances[node as int] == Some(current_distance),
                visit_queue.len() == order.len() - done - 1,
                forall|i: int|
                    0 <= i < visit_queue.len() ==> #[trigger] visit_queue@[i] == order[done + 1 + i],
                j <= targets.len(),
                targets.len() == out_targets(edges, node as int).len(),
                forall|i: int|
                    0 <= i < targets.len() ==> #[trigger] targets@[i] == out_targets(
                        edges,
                        node as int,
                    )[targets.len() - 1 - i],
                forall|i: int| 0 <= i < targets.len() ==> #[trigger] targets@[i] < n,
                forall|i: int|
                    0 <= i < j ==> relaxed(n as int, distances@, node as int, #[trigger] targets@[i] as int),
            decreases targets.len() - j,
        {
            let neighbor = targets[j];
            proof {
                let k = targets.len() - 1 - j;
                assert(out_targets(edges, node as int)[k] == neighbor);
                assert(out_targets(edges, node as int).contains(neighbor as int));
                lemma_out_targets(edges, node as int, neighbor as int);
            }
            if distances[neighbor].is_none() {
                proof {
                    lemma_discover(edges, n as int, start, distances@, order, done, walks, neighbor as int);
                }
                distances.set(neighbor, Some(current_distance + 1));
                visit_queue.push_back(neighbor);
                proof {
                    walks = walks.update(neighbor as int, walks[node as int].push(neighbor as int));
                    order = order.push(neighbor as int);
                }
            } else {
                proof {
                    lemma_seen(edges, n as int, start, distances@, order, done, walks, neighbor as int);
                }
            }
            j += 1;
        }
        proof {
            assert forall|w: int| #[trigger] has_edge(edges, order[done], w) implies relaxed(
                n as int,
                distances@,
                order[done],
                w,
            ) by {
                lemma_out_targets(edges, node as int, w);
                let k = choose|k: int|
                    0 <= k < out_targets(edges, node as int).len() && out_targets(
                        edges,
                        node as int,
                    )[k] == w;
                let i = targets.len() - 1 - k;
                assert(targets@[i] == w);
            }
            lemma_settle(edges, n as int, start, distances@, order, done, walks);
            done = done + 1;
        }
    }
    proof {
        lemma_finish(edges, n as int, start, distances@, order, walks);
    }
    distances
}

/// Runs `bfs_shortest_paths` after checking that `start_index` is a node of
/// `graph`; an index that is not is reported as `IndexOutOfRange`.
pub fn shortest_paths(graph: &DiGraph<u32, ()>, start_index: usize) -> (result: Result<
    Vec<Option<u32>>,
    GraphError,
>)
    ensures
        match result {
            Ok(distances) => {
                &&& start_index < graph_nodes(*graph).len()
                &&& distances.len() == graph_nodes(*graph).len()
                &&& forall|v: int|
                    0 <= v < distances.len() ==> as_hops(#[trigger] distances[v]) == hop_distance(
                        graph_edges(*graph),
                        start_index as int,
                        v,
                    )
                &&& distances@ == distances_from(
                    graph_edges(*graph),
                    graph_nodes(*graph).len(),
                    start_index as int,
                )
            },
            Err(error) => {
                &&& start_index >= graph_nodes(*graph).len()
                &&& error == GraphError::IndexOutOfRange
            },
        },
{
    if start_index < node_count(graph) {
        Ok(bfs_shortest_paths(graph, start_index))
    } else {
        Err(GraphError::IndexOutOfRange)
    }
}

/// Counts, for every out-degree that occurs in `graph`, the nodes that have
/// it. The out-degree of a node is the number of edges that leave it. The
/// counts add up to the number of nodes.
pub fn analyze_degree_distribution(graph: &DiGraph<u32, ()>) -> (histogram: HashMap<usize, usize>)
    ensures
        histogram@ == degree_histogram(graph_edges(*graph), graph_nodes(*graph).len()),
        total_count(histogram@) == graph_nodes(*graph).len(),
{
    broadcast use vstd::std_specs::hash::group_hash_axioms;

    let ghost edges = graph_edges(*graph);
    let indices = node_indices(graph);
    let mut degree_count: HashMap<usize, usize> = HashMap::new();
    let mut i: usize = 0;
    proof {
        assert(degree_count@ =~= degree_histogram(edges, 0));
        assert(degree_count@.dom() =~= Set::empty());
        vstd::set::fold::lemma_fold_empty(0nat, add_count(degree_count@));
    }
    while i < indices.len()
        invariant
            i <= indices.len(),
            edges == graph_edges(*graph),
            indices.len() == graph_nodes(*graph).len(),
            forall|k: int| 0 <= k < indices.len() ==> #[trigger] indices@[k] == k,
            degree_count@ == degree_histogram(edges, i as nat),
            total_count(degree_count@) == i,
        decreases indices.len() - i,
    {
        let node = indices[i];
        let degree = neighbors_outgoing(graph, node).len();
        let count = match degree_count.get(&degree) {
            Some(count) => *count,
            None => 0,
        };
        proof {
            assert(degree == out_degree(edges, i as int));
            lemma_nodes_with_degree_bound(edges, i as nat, degree as nat);
            assert(count == nodes_with_degree(edges, i as nat, degree as nat)) by {
                if degree_count@.contains_key(degree) {
                    assert(degree_count@[degree] == count);
                }
            }
            lemma_histogram_step(edges, i as nat);
            lemma_total_insert(degree_count@, degree, (count + 1) as usize);
        }
        degree_count.insert(degree, count + 1);
        i += 1;
    }
    degree_count
}

} // verus!
