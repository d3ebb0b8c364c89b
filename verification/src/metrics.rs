//! Closeness centrality and path-length statistics over a random sample of
//! start nodes.
//!
//! Every quantity is computed exactly, as an integer or a fraction of
//! integers. The random draw is separated from what is computed from it:
//! `closeness_of_sample` and `path_metrics_of_sample` take the sample as an
//! argument and are fully determined by it.

use crate::error::GraphError;
use crate::graph_ops::{bfs_shortest_paths, distances_from, DiGraph};
use crate::paths::lemma_self_distance;
use crate::petgraph_model::{graph_edges, graph_nodes, node_count, node_indices};
use crate::rand_model::{choose_multiple, is_selection};
use crate::stat_util::{
    median, median_of, squared_deviations, standard_deviation, variance_fits, Fraction,
};
use std::collections::HashMap;
use vstd::prelude::*;

verus! {

/// Mean, maximum, median and variance of a pool of hop counts.
#[derive(Clone, Copy, Debug, PartialEq, Eq)]
pub struct PathMetrics {
    /// The arithmetic mean: the sum of the pool over its size.
    pub mean: Fraction,
    /// The largest hop count of the pool.
    pub max: u32,
    /// The median of the pool.
    pub median: Fraction,
    /// The mean squared deviation from `mean`, whose square root is the
    /// population standard deviation; `None` when it does not fit in 128-bit
    /// integers.
    pub variance: Option<Fraction>,
}

/// `sample` holds distinct node indices of a graph with `n` nodes.
pub open spec fn is_node_sample(sample: Seq<usize>, n: nat) -> bool {
    &&& sample.no_duplicates()
    &&& forall|i: int| 0 <= i < sample.len() ==> #[trigger] sample[i] < n
}

/// The sum of the distances that are not `None`.
pub open spec fn sum_of_distances(distances: Seq<Option<u32>>) -> nat
    decreases distances.len(),
{
    if distances.len() == 0 {
        0
    } else {
        let before = sum_of_distances(distances.drop_last());
        match distances.last() {
            Some(hops) => before + hops as nat,
            None => before,
        }
    }
}

/// The distances that are not `None`, in their order.
pub open spec fn finite_distances(distances: Seq<Option<u32>>) -> Seq<u32>
    decreases distances.len(),
{
    if distances.len() == 0 {
        Seq::empty()
    } else {
        let before = finite_distances(distances.drop_last());
        match distances.last() {
            Some(hops) => before.push(hops),
            None => before,
        }
    }
}

/// The closeness score of a node of a graph with `n` nodes whose hop
/// distances to the nodes it reaches add up to `total`: `(n - 1) / total`,
/// or zero when `total` is zero.
pub open spec fn closeness_score(n: nat, total: nat) -> Fraction {
    if total > 0 {
        Fraction { numerator: (n - 1) as u128, denominator: total as u128 }
    } else {
        Fraction { numerator: 0, denominator: 1 }
    }
}

/// The closeness centrality of `node` in the graph with `n` nodes and edge
/// list `edges`.
pub open spec fn closeness_of(edges: Seq<(int, int)>, n: nat, node: int) -> Fraction {
    closeness_score(n, sum_of_distances(distances_from(edges, n, node)))
}

/// The finite hop distances from each node of `sample` in turn, each time in
/// node index order.
pub open spec fn pooled(edges: Seq<(int, int)>, n: nat, sample: Seq<usize>) -> Seq<u32>
    decreases sample.len(),
{
    if sample.len() == 0 {
        Seq::empty()
    } else {
        pooled(edges, n, sample.drop_last()) + finite_distances(
            distances_from(edges, n, sample.last() as int),
        )
    }
}

/// The sum of a sequence of hop counts.
pub open spec fn sum_of(values: Seq<u32>) -> nat
    decreases values.len(),
{
    if values.len() == 0 {
        0
    } else {
        sum_of(values.drop_last()) + values.last() as nat
    }
}

/// `max` occurs in `values` and no element of `values` exceeds it.
pub open spec fn is_max_of(values: Seq<u32>, max: u32) -> bool {
    &&& values.contains(max)
    &&& forall|i: int| 0 <= i < values.len() ==> values[i] <= max
}

/// The mean of a pool: its sum over its size.
pub open spec fn mean_of(pool: Seq<u32>) -> Fraction {
    Fraction { numerator: sum_of(pool) as u128, denominator: pool.len() as u128 }
}

/// The variance of a pool about its mean, scaled as `standard_deviation`
/// scales it, if that fits.
pub open spec fn variance_of(pool: Seq<u32>) -> Option<Fraction> {
    if variance_fits(pool, mean_of(pool)) {
        Some(
            Fraction {
                numerator: squared_deviations(pool, mean_of(pool)) as u128,
                denominator: (pool.len() * pool.len() * pool.len()) as u128,
            },
        )
    } else {
        None
    }
}

/// `metrics` are the statistics of the non-empty pool `pool`.
pub open spec fn describes(metrics: PathMetrics, pool: Seq<u32>) -> bool {
    &&& metrics.mean == mean_of(pool)
    &&& is_max_of(pool, metrics.max)
    &&& metrics.median == median_of(pool)
    &&& metrics.variance == variance_of(pool)
}

/// `score` is a fraction between 0 and `n - 1`.
pub open spec fn in_closeness_range(score: Fraction, n: nat) -> bool {
    &&& score.well_formed()
    &&& score.numerator <= (n - 1) * score.denominator
}

/// A closeness score is a fraction between 0 and `n - 1`, and it is 0 when
/// the distances add up to 0.
pub proof fn lemma_closeness_range(n: nat, total: nat)
    requires
        1 <= n <= u32::MAX,
        total <= u128::MAX,
    ensures
        in_closeness_range(closeness_score(n, total), n),
        total == 0 ==> closeness_score(n, total).numerator == 0,
        total > 0 ==> closeness_score(n, total).numerator == n - 1 && closeness_score(
            n,
            total,
        ).denominator == total,
{
    if total > 0 {
        let score = closeness_score(n, total);
        assert((n - 1) <= (n - 1) * score.denominator) by (nonlinear_arith)
            requires
                n >= 1,
                score.denominator >= 1,
        ;
    }
}

/// The closeness centrality of a node of a graph with 32-bit node indices
/// is a fraction between 0 and the node count less one, and it is 0 when the
/// hop distances from the node add up to 0.
pub proof fn lemma_closeness_bounds(edges: Seq<(int, int)>, n: nat, node: int)
    requires
        1 <= n <= u32::MAX,
    ensures
        in_closeness_range(closeness_of(edges, n, node), n),
        sum_of_distances(distances_from(edges, n, node)) == 0 ==> closeness_of(
            edges,
            n,
            node,
        ).numerator == 0,
{
    let distances = distances_from(edges, n, node);
    lemma_sum_of_distances_bound(distances, 0xffff_ffff);
    assert(0xffff_ffff * distances.len() <= 0xffff_ffff * 0xffff_ffff) by (nonlinear_arith)
        requires
            distances.len() <= 0xffff_ffff,
    ;
    lemma_closeness_range(n, sum_of_distances(distances));
}

/// Distances of at most `bound` add up to at most `bound` times their count.
proof fn lemma_sum_of_distances_bound(distances: Seq<Option<u32>>, bound: nat)
    requires
        forall|i: int|
            0 <= i < distances.len() && (#[trigger] distances[i]) is Some ==> distances[i]->0
                <= bound,
    ensures
        sum_of_distances(distances) <= bound * distances.len(),
    decreases distances.len(),
{
    if distances.len() > 0 {
        let before = distances.drop_last();
        assert forall|i: int| 0 <= i < before.len() && (#[trigger] before[i]) is Some implies before[i]->0
            <= bound by {
            assert(before[i] == distances[i]);
        }
        lemma_sum_of_distances_bound(before, bound);
        assert(bound * before.len() + bound == bound * distances.len()) by (nonlinear_arith)
            requires
                before.len() + 1 == distances.len(),
        ;
        assert(distances[distances.len() - 1] == distances.last());
    }
}

/// A distance vector with a finite entry has a non-empty list of finite
/// distances.
proof fn lemma_finite_distances_nonempty(distances: Seq<Option<u32>>, at: int)
    requires
        0 <= at < distances.len(),
        distances[at] is Some,
    ensures
        finite_distances(distances).len() > 0,
    decreases distances.len(),
{
    if at < distances.len() - 1 {
        let before = distances.drop_last();
        assert(before[at] == distances[at]);
        lemma_finite_distances_nonempty(before, at);
    }
}

/// The pool of a non-empty sample of nodes is not empty: every node reaches
/// itself.
pub proof fn lemma_pool_nonempty(edges: Seq<(int, int)>, n: nat, sample: Seq<usize>)
    requires
        sample.len() > 0,
        forall|i: int| 0 <= i < sample.len() ==> #[trigger] sample[i] < n,
    ensures
        pooled(edges, n, sample).len() > 0,
{
    let start = sample.last() as int;
    lemma_self_distance(edges, start);
    assert(distances_from(edges, n, start)[start] is Some);
    lemma_finite_distances_nonempty(distances_from(edges, n, start), start);
}

/// Draws `sample_size` distinct nodes of `graph` at random.
///
/// Asking for more nodes than the graph has is an error; the sample is never
/// cut short.
pub fn sample_nodes(graph: &DiGraph<u32, ()>, sample_size: usize) -> (result: Result<
    Vec<usize>,
    GraphError,
>)
    ensures
        match result {
            Ok(sample) => {
                &&& sample_size <= graph_nodes(*graph).len()
                &&& sample.len() == sample_size
                &&& is_node_sample(sample@, graph_nodes(*graph).len())
            },
            Err(error) => {
                &&& sample_size > graph_nodes(*graph).len()
                &&& error == GraphError::SampleSizeExceedsPopulation
            },
        },
{
    let indices = node_indices(graph);
    if sample_size > indices.len() {
        return Err(GraphError::SampleSizeExceedsPopulation);
    }
    let mut rng = rand::thread_rng();
    let sample = choose_multiple(&indices, &mut rng, sample_size);
    proof {
        let picks = choose|picks: Seq<int>| is_selection(sample@, indices@, picks);
        assert forall|i: int| 0 <= i < sample.len() implies (#[trigger] sample@[i]) == picks[i]
            && sample@[i] < indices.len() by {
            assert(0 <= picks[i] < indices.len());
            assert(indices@[picks[i]] == picks[i]);
        }
        assert forall|i: int, j: int|
            0 <= i < sample.len() && 0 <= j < sample.len() && i != j implies sample@[i]
            != sample@[j] by {
            assert(picks[i] != picks[j]);
        }
    }
    Ok(sample)
}

/// Adds up the distances that are not `None`.
pub fn total_distance(distances: &Vec<Option<u32>>) -> (total: u128)
    ensures
        total == sum_of_distances(distances@),
{
    let mut total: u128 = 0;
    let mut i: usize = 0;
    while i < distances.len()
        invariant
            i <= distances.len(),
            total == sum_of_distances(distances@.take(i as int)),
            total <= 0xffff_ffff * i,
        decreases distances.len() - i,
    {
        proof {
            assert(distances@.take(i + 1).drop_last() == distances@.take(i as int));
            assert(distances@.take(i + 1).last() == distances@[i as int]);
        }
        match distances[i] {
            Some(hops) => {
                total = total + hops as u128;
            },
            None => {},
        }
        i += 1;
    }
    assert(distances@.take(distances.len() as int) == distances@);
    total
}

/// Computes the closeness centrality of each node of `sample`: the node
/// count less one, over the sum of the hop distances from the node to all
/// nodes it reaches, or zero when that sum is zero. Nodes outside the sample
/// get no entry.
pub fn closeness_of_sample(graph: &DiGraph<u32, ()>, sample: &Vec<usize>) -> (scores: HashMap<
    usize,
    Fraction,
>)
    requires
        forall|i: int| 0 <= i < sample.len() ==> #[trigger] sample[i] < graph_nodes(*graph).len(),
    ensures
        scores@.dom() == sample@.to_set(),
        forall|node: usize| #[trigger]
            scores@.contains_key(node) ==> scores@[node] == closeness_of(
                graph_edges(*graph),
                graph_nodes(*graph).len(),
                node as int,
            ),
        forall|node: usize| #[trigger]
            scores@.contains_key(node) ==> in_closeness_range(
                scores@[node],
                graph_nodes(*graph).len(),
            ),
{
    broadcast use vstd::std_specs::hash::group_hash_axioms;

    let ghost edges = graph_edges(*graph);
    let n = node_count(graph);
    let mut scores: HashMap<usize, Fraction> = HashMap::new();
    let mut i: usize = 0;
    assert(scores@.dom() =~= sample@.take(0).to_set());
    while i < sample.len()
        invariant
            i <= sample.len(),
            n == graph_nodes(*graph).len(),
            n <= u32::MAX,
            edges == graph_edges(*graph),
            forall|k: int| 0 <= k < sample.len() ==> #[trigger] sample[k] < n,
            scores@.dom() == sample@.take(i as int).to_set(),
            forall|node: usize| #[trigger]
                scores@.contains_key(node) ==> scores@[node] == closeness_of(
                    edges,
                    n as nat,
                    node as int,
                ),
            forall|node: usize| #[trigger]
                scores@.contains_key(node) ==> in_closeness_range(scores@[node], n as nat),
        decreases sample.len() - i,
    {
        let node = sample[i];
        let distances = bfs_shortest_paths(graph, node);
        let total = total_distance(&distances);
        let closeness = if total > 0 {
            Fraction { numerator: (n - 1) as u128, denominator: total }
        } else {
            Fraction { numerator: 0, denominator: 1 }
        };
        scores.insert(node, closeness);
        proof {
            lemma_closeness_bounds(edges, n as nat, node as int);
            let before = sample@.take(i as int);
            let longer = sample@.take(i + 1);
            assert(longer == before.push(node));
            before.lemma_push_to_set_commute(node);
        }
        i += 1;
    }
    assert(sample@.take(sample.len() as int) == sample@);
    scores
}

/// Computes the closeness centrality of `sample_size` nodes of `graph` drawn
/// at random without replacement.
///
/// The result maps each drawn node to its score. Asking for more nodes than
/// the graph has is an error.
pub fn calculate_closeness_centrality(graph: &DiGraph<u32, ()>, sample_size: usize) -> (result:
    Result<HashMap<usize, Fraction>, GraphError>)
    ensures
        match result {
            Ok(scores) => {
                &&& sample_size <= graph_nodes(*graph).len()
                &&& scores@.dom().len() == sample_size
                &&& forall|node: usize| #[trigger]
                    scores@.contains_key(node) ==> node < graph_nodes(*graph).len() && scores@[node]
                        == closeness_of(
                        graph_edges(*graph),
                        graph_nodes(*graph).len(),
                        node as int,
                    )
                &&& forall|node: usize| #[trigger]
                    scores@.contains_key(node) ==> in_closeness_range(
                        scores@[node],
                        graph_nodes(*graph).len(),
                    )
            },
            Err(error) => {
                &&& sample_size > graph_nodes(*graph).len()
                &&& error == GraphError::SampleSizeExceedsPopulation
            },
        },
{
    match sample_nodes(graph, sample_size) {
        Ok(sample) => {
            let scores = closeness_of_sample(graph, &sample);
            proof {
                sample@.unique_seq_to_set();
                assert forall|node: usize| #[trigger] scores@.contains_key(node) implies node
                    < graph_nodes(*graph).len() by {
                    assert(sample@.to_set().contains(node));
                    let i = choose|i: int| 0 <= i < sample.len() && sample@[i] == node;
                    assert(sample@[i] < graph_nodes(*graph).len());
                }
            }
            Ok(scores)
        },
        Err(error) => Err(error),
    }
}

/// Appends the distances of `distances` that are not `None` to `pool`.
fn append_finite(pool: &mut Vec<u32>, distances: &Vec<Option<u32>>)
    ensures
        final(pool)@ == old(pool)@ + finite_distances(distances@),
{
    let mut i: usize = 0;
    assert(distances@.take(0) == Seq::<Option<u32>>::empty());
    assert(pool@ == old(pool)@ + finite_distances(distances@.take(0)));
    while i < distances.len()
        invariant
            i <= distances.len(),
            pool@ == old(pool)@ + finite_distances(distances@.take(i as int)),
        decreases distances.len() - i,
    {
        proof {
            assert(distances@.take(i + 1).drop_last() == distances@.take(i as int));
            assert(distances@.take(i + 1).last() == distances@[i as int]);
        }
        match distances[i] {
            Some(hops) => {
                pool.push(hops);
            },
            None => {},
        }
        i += 1;
    }
    assert(distances@.take(distances.len() as int) == distances@);
}

/// Collects the finite hop distances from every node of `sample` into one
/// pool. The distance 0 from a node to itself is part of it.
pub fn pool_distances(graph: &DiGraph<u32, ()>, sample: &Vec<usize>) -> (pool: Vec<u32>)
    requires
        forall|i: int| 0 <= i < sample.len() ==> #[trigger] sample[i] < graph_nodes(*graph).len(),
    ensures
        pool@ == pooled(graph_edges(*graph), graph_nodes(*graph).len(), sample@),
{
    let ghost edges = graph_edges(*graph);
    let ghost n = graph_nodes(*graph).len();
    let mut pool: Vec<u32> = Vec::new();
    let mut i: usize = 0;
    assert(sample@.take(0) == Seq::<usize>::empty());
    while i < sample.len()
        invariant
            i <= sample.len(),
            n == graph_nodes(*graph).len(),
            edges == graph_edges(*graph),
            forall|k: int| 0 <= k < sample.len() ==> #[trigger] sample[k] < n,
            pool@ == pooled(edges, n, sample@.take(i as int)),
        decreases sample.len() - i,
    {
        let distances = bfs_shortest_paths(graph, sample[i]);
        append_finite(&mut pool, &distances);
        proof {
            assert(sample@.take(i + 1).drop_last() == sample@.take(i as int));
            assert(sample@.take(i + 1).last() == sample@[i as int]);
        }
        i += 1;
    }
    assert(sample@.take(sample.len() as int) == sample@);
    pool
}

/// Computes mean, maximum, median and variance of a non-empty pool of hop
/// counts. The variance is taken about the mean computed here.
pub fn summarize(pool: &Vec<u32>) -> (metrics: PathMetrics)
    requires
        pool.len() > 0,
    ensures
        describes(metrics, pool@),
{
    let mut sum: u128 = 0;
    let mut max: u32 = pool[0];
    let mut i: usize = 0;
    assert(pool@.take(0) == Seq::<u32>::empty());
    while i < pool.len()
        invariant
            i <= pool.len(),
            pool.len() > 0,
            sum == sum_of(pool@.take(i as int)),
            sum <= 0xffff_ffff * i,
            forall|k: int| 0 <= k < i ==> pool@[k] <= max,
            exists|k: int| 0 <= k < pool.len() && pool@[k] == max,
        decreases pool.len() - i,
    {
        proof {
            assert(pool@.take(i + 1).drop_last() == pool@.take(i as int));
            assert(pool@.take(i + 1).last() == pool@[i as int]);
        }
        sum = sum + pool[i] as u128;
        if pool[i] > max {
            max = pool[i];
        }
        i += 1;
    }
    assert(pool@.take(pool.len() as int) == pool@);
    let mean = Fraction { numerator: sum, denominator: pool.len() as u128 };
    let mut sorted = pool.clone();
    assert(sorted@ == pool@);
    let middle = median(&mut sorted);
    let variance = standard_deviation(pool, mean);
    proof {
        let count = pool.len() as int;
        assert(count * count * count == (count * count) * count);
    }
    PathMetrics { mean, max, median: middle, variance }
}

/// Computes the path-length statistics of the pool of finite hop distances
/// from the nodes of `sample`. An empty sample leaves nothing to measure
/// and is an error.
pub fn path_metrics_of_sample(graph: &DiGraph<u32, ()>, sample: &Vec<usize>) -> (result: Result<
    PathMetrics,
    GraphError,
>)
    requires
        forall|i: int| 0 <= i < sample.len() ==> #[trigger] sample[i] < graph_nodes(*graph).len(),
    ensures
        match result {
            Ok(metrics) => {
                &&& sample.len() > 0
                &&& describes(
                    metrics,
                    pooled(graph_edges(*graph), graph_nodes(*graph).len(), sample@),
                )
            },
            Err(error) => {
                &&& sample.len() == 0
                &&& error == GraphError::EmptySample
            },
        },
{
    if sample.len() == 0 {
        return Err(GraphError::EmptySample);
    }
    let pool = pool_distances(graph, sample);
    proof {
        lemma_pool_nonempty(graph_edges(*graph), graph_nodes(*graph).len(), sample@);
    }
    Ok(summarize(&pool))
}

/// Computes mean, maximum, median and variance of the finite hop distances
/// from `sample_size` nodes of `graph` drawn at random without replacement.
///
/// A sample size of zero or a graph without nodes is reported as
/// `EmptySample`; otherwise a sample size above the node count is reported
/// as `SampleSizeExceedsPopulation`.
pub fn calculate_path_metrics(graph: &DiGraph<u32, ()>, sample_size: usize) -> (result: Result<
    PathMetrics,
    GraphError,
>)
    ensures
        match result {
            Ok(metrics) => {
                &&& 0 < sample_size <= graph_nodes(*graph).len()
                &&& exists|sample: Seq<usize>|
                    {
                        &&& sample.len() == sample_size
                        &&& is_node_sample(sample, graph_nodes(*graph).len())
                        &&& #[trigger] describes(
                            metrics,
                            pooled(graph_edges(*graph), graph_nodes(*graph).len(), sample),
                        )
                    }
            },
            Err(error) => {
                if sample_size == 0 || graph_nodes(*graph).len() == 0 {
                    error == GraphError::EmptySample
                } else {
                    &&& sample_size > graph_nodes(*graph).len()
                    &&& error == GraphError::SampleSizeExceedsPopulation
                }
            },
        },
{
    if sample_size == 0 || node_count(graph) == 0 {
        return Err(GraphError::EmptySample);
    }
    match sample_nodes(graph, sample_size) {
        Ok(sample) => path_metrics_of_sample(graph, &sample),
        Err(error) => Err(error),
    }
}

} // verus!
