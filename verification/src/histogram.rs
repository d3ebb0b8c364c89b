//! Out-degrees and their histogram.

use crate::petgraph_model::{leaves, out_edges, out_targets};
use vstd::prelude::*;

verus! {

/// The number of edges that leave `node`; parallel edges count separately.
pub open spec fn out_degree(edges: Seq<(int, int)>, node: int) -> nat {
    out_targets(edges, node).len()
}

/// The number of nodes among the first `n` whose out-degree is `degree`.
pub open spec fn nodes_with_degree(edges: Seq<(int, int)>, n: nat, degree: nat) -> nat
    decreases n,
{
    if n == 0 {
        0
    } else {
        let before = nodes_with_degree(edges, (n - 1) as nat, degree);
        if out_degree(edges, n - 1) == degree {
            before + 1
        } else {
            before
        }
    }
}

/// The histogram of the out-degrees of the first `n` nodes: each out-degree
/// that occurs is mapped to the number of nodes that have it.
pub open spec fn degree_histogram(edges: Seq<(int, int)>, n: nat) -> Map<usize, usize> {
    Map::new(
        |degree: usize| nodes_with_degree(edges, n, degree as nat) > 0,
        |degree: usize| nodes_with_degree(edges, n, degree as nat) as usize,
    )
}

/// Adds the count that `histogram` holds for a degree to a running sum.
pub open spec fn add_count(histogram: Map<usize, usize>) -> spec_fn(nat, usize) -> nat {
    |sum: nat, degree: usize| sum + histogram[degree] as nat
}

/// The sum of all counts of a histogram.
pub open spec fn total_count(histogram: Map<usize, usize>) -> nat {
    histogram.dom().fold(0nat, add_count(histogram))
}

/// No more than `n` of the first `n` nodes share a degree.
pub proof fn lemma_nodes_with_degree_bound(edges: Seq<(int, int)>, n: nat, degree: nat)
    ensures
        nodes_with_degree(edges, n, degree) <= n,
    decreases n,
{
    if n > 0 {
        lemma_nodes_with_degree_bound(edges, (n - 1) as nat, degree);
    }
}

/// No node has more out-edges than the graph has edges.
pub proof fn lemma_out_degree_bound(edges: Seq<(int, int)>, node: int)
    ensures
        out_degree(edges, node) <= edges.len(),
{
    edges.lemma_filter_len(leaves(node));
    assert(out_targets(edges, node).len() == out_edges(edges, node).len());
}

/// A sum over a finite set depends only on what is added for its members.
proof fn lemma_fold_agree(degrees: Set<usize>, f: Map<usize, usize>, g: Map<usize, usize>)
    requires
        degrees.finite(),
        forall|degree: usize| degrees.contains(degree) ==> f[degree] == g[degree],
    ensures
        degrees.fold(0nat, add_count(f)) == degrees.fold(0nat, add_count(g)),
    decreases degrees.len(),
{
    broadcast use vstd::set::group_set_axioms;

    assert(vstd::set::fold::is_fun_commutative(add_count(f)));
    assert(vstd::set::fold::is_fun_commutative(add_count(g)));
    if degrees.len() == 0 {
        assert(degrees =~= Set::empty());
        vstd::set::fold::lemma_fold_empty(0nat, add_count(f));
        vstd::set::fold::lemma_fold_empty(0nat, add_count(g));
    } else {
        let picked = degrees.choose();
        let others = degrees.remove(picked);
        assert(others.insert(picked) =~= degrees);
        lemma_fold_agree(others, f, g);
        vstd::set::fold::lemma_fold_insert(others, 0nat, add_count(f), picked);
        vstd::set::fold::lemma_fold_insert(others, 0nat, add_count(g), picked);
    }
}

/// Setting the count of one degree changes the total by the difference
/// between the new count and the old one.
pub proof fn lemma_total_insert(histogram: Map<usize, usize>, degree: usize, count: usize)
    requires
        histogram.dom().finite(),
    ensures
        total_count(histogram.insert(degree, count)) == total_count(histogram.remove(degree))
            + count,
        histogram.contains_key(degree) ==> total_count(histogram) == total_count(
            histogram.remove(degree),
        ) + histogram[degree],
        !histogram.contains_key(degree) ==> histogram.remove(degree) == histogram,
{
    broadcast use vstd::set::group_set_axioms;

    let others = histogram.dom().remove(degree);
    let without = histogram.remove(degree);
    let updated = histogram.insert(degree, count);
    assert(without.dom() =~= others);
    assert(updated.dom() =~= others.insert(degree));
    assert(vstd::set::fold::is_fun_commutative(add_count(updated)));
    assert(vstd::set::fold::is_fun_commutative(add_count(histogram)));
    vstd::set::fold::lemma_fold_insert(others, 0nat, add_count(updated), degree);
    lemma_fold_agree(others, updated, without);
    if histogram.contains_key(degree) {
        assert(histogram.dom() =~= others.insert(degree));
        vstd::set::fold::lemma_fold_insert(others, 0nat, add_count(histogram), degree);
        lemma_fold_agree(others, histogram, without);
    } else {
        assert(without =~= histogram);
    }
}

/// Taking one more node into account raises the count of its out-degree by
/// one and leaves every other count as it was.
pub proof fn lemma_histogram_step(edges: Seq<(int, int)>, n: nat)
    requires
        out_degree(edges, n as int) <= usize::MAX,
        n < usize::MAX,
    ensures
        ({
            let degree = out_degree(edges, n as int) as usize;
            let count = nodes_with_degree(edges, n, degree as nat);
            degree_histogram(edges, n + 1) == degree_histogram(edges, n).insert(
                degree,
                (count + 1) as usize,
            )
        }),
{
    let degree = out_degree(edges, n as int) as usize;
    let count = nodes_with_degree(edges, n, degree as nat);
    let next = degree_histogram(edges, n + 1);
    let stepped = degree_histogram(edges, n).insert(degree, (count + 1) as usize);
    lemma_nodes_with_degree_bound(edges, n, degree as nat);
    assert forall|other: usize| next.contains_key(other) <==> stepped.contains_key(other) by {
        assert(nodes_with_degree(edges, n + 1, other as nat) == nodes_with_degree(
            edges,
            n,
            other as nat,
        ) + if other == degree {
            1nat
        } else {
            0nat
        });
    }
    assert forall|other: usize| next.contains_key(other) implies next[other] == stepped[other] by {
        assert(nodes_with_degree(edges, n + 1, other as nat) == nodes_with_degree(
            edges,
            n,
            other as nat,
        ) + if other == degree {
            1nat
        } else {
            0nat
        });
    }
    assert(next =~= stepped);
}

/// The histogram of the first `n` nodes has finitely many entries.
pub proof fn lemma_histogram_finite(edges: Seq<(int, int)>, n: nat)
    requires
        edges.len() <= usize::MAX,
        n <= usize::MAX,
    ensures
        degree_histogram(edges, n).dom().finite(),
    decreases n,
{
    broadcast use vstd::set::group_set_axioms;

    if n == 0 {
        assert(degree_histogram(edges, 0).dom() =~= Set::empty());
    } else {
        let m = (n - 1) as nat;
        lemma_histogram_finite(edges, m);
        lemma_out_degree_bound(edges, m as int);
        lemma_histogram_step(edges, m);
    }
}

/// The counts of the out-degree histogram of a graph add up to its number of
/// nodes.
pub proof fn lemma_histogram_total(edges: Seq<(int, int)>, n: nat)
    requires
        edges.len() <= usize::MAX,
        n <= usize::MAX,
    ensures
        total_count(degree_histogram(edges, n)) == n,
    decreases n,
{
    broadcast use vstd::set::group_set_axioms;

    if n == 0 {
        assert(degree_histogram(edges, 0).dom() =~= Set::empty());
        vstd::set::fold::lemma_fold_empty(0nat, add_count(degree_histogram(edges, 0)));
    } else {
        let m = (n - 1) as nat;
        let before = degree_histogram(edges, m);
        lemma_histogram_total(edges, m);
        lemma_histogram_finite(edges, m);
        lemma_out_degree_bound(edges, m as int);
        lemma_histogram_step(edges, m);
        let degree = out_degree(edges, m as int) as usize;
        let count = nodes_with_degree(edges, m, degree as nat);
        lemma_nodes_with_degree_bound(edges, m, degree as nat);
        lemma_total_insert(before, degree, (count + 1) as usize);
        if before.contains_key(degree) {
            assert(before[degree] == count);
        } else {
            assert(count == 0);
        }
    }
}

} // verus!
