use graph_metrics::error::GraphError;
use graph_metrics::graph_ops::{construct_graph, DiGraph, NodeIndex};
use graph_metrics::metrics::{
    calculate_closeness_centrality, calculate_path_metrics, closeness_of_sample,
    path_metrics_of_sample, pool_distances, sample_nodes, summarize, total_distance,
};
use graph_metrics::stat_util::{median, standard_deviation, Fraction};

fn lines(text: &[&str]) -> Vec<String> {
    text.iter().map(|line| line.to_string()).collect()
}

fn value(fraction: Fraction) -> f64 {
    fraction.numerator as f64 / fraction.denominator as f64
}

fn two_node_cycle() -> DiGraph<u32, ()> {
    let mut graph = DiGraph::<u32, ()>::new();
    let n1 = graph.add_node(1).index();
    let n2 = graph.add_node(2).index();
    graph.add_edge(NodeIndex::new(n1), NodeIndex::new(n2), ());
    graph.add_edge(NodeIndex::new(n2), NodeIndex::new(n1), ());
    graph
}

#[test]
fn test_closeness_centrality() {
    let mut graph = DiGraph::<u32, ()>::new();
    let n1 = graph.add_node(1).index();
    let n2 = graph.add_node(2).index();
    graph.add_edge(NodeIndex::new(n1), NodeIndex::new(n2), ());
    graph.add_edge(NodeIndex::new(n2), NodeIndex::new(n1), ());

    let centralities = calculate_closeness_centrality(&graph, 2).unwrap();
    assert!(centralities.contains_key(&n1));
    assert!(centralities.contains_key(&n2));
}

#[test]
fn test_path_metrics() {
    let mut graph = DiGraph::<u32, ()>::new();
    let n1 = graph.add_node(1).index();
    let n2 = graph.add_node(2).index();
    graph.add_edge(NodeIndex::new(n1), NodeIndex::new(n2), ());
    graph.add_edge(NodeIndex::new(n2), NodeIndex::new(n1), ());

    let metrics = calculate_path_metrics(&graph, 2).unwrap();
    let average = value(metrics.mean);
    let max = metrics.max as f64;
    let median = value(metrics.median);
    let std_dev = value(metrics.variance.unwrap()).sqrt();
    println!("Average: {}", average);
    println!("Max: {}", max);
    println!("Median: {}", median);
    println!("Standard Deviation: {}", std_dev);

    assert_eq!(average, 0.5, "Average should be 0.5");
    assert_eq!(max, 1.0, "Max should be 1.0");
    assert_eq!(median, 0.5, "Median should be 0.5");
    assert!(std_dev >= 0.0, "Standard deviation should be non-negative");
}

#[test]
fn path_metrics_of_the_two_node_cycle_are_exact() {
    let graph = two_node_cycle();
    let metrics = calculate_path_metrics(&graph, 2).unwrap();
    assert_eq!(metrics.mean, Fraction { numerator: 2, denominator: 4 });
    assert_eq!(metrics.max, 1);
    assert_eq!(metrics.median, Fraction { numerator: 1, denominator: 2 });
    assert_eq!(metrics.variance, Some(Fraction { numerator: 16, denominator: 64 }));
    assert_eq!(value(metrics.variance.unwrap()).sqrt(), 0.5);
}

#[test]
fn pool_of_each_node_of_the_two_node_cycle() {
    let graph = two_node_cycle();
    assert_eq!(pool_distances(&graph, &vec![0]), vec![0, 1]);
    assert_eq!(pool_distances(&graph, &vec![1]), vec![1, 0]);
    assert_eq!(pool_distances(&graph, &vec![1, 0]), vec![1, 0, 0, 1]);
    assert_eq!(pool_distances(&graph, &Vec::new()), Vec::<u32>::new());
}

#[test]
fn pool_leaves_out_unreached_nodes() {
    let graph = construct_graph(&lines(&["0 1", "1 2", "3 0"])).unwrap();
    assert_eq!(pool_distances(&graph, &vec![0, 3]), vec![0, 1, 2, 1, 2, 3, 0]);
    assert_eq!(pool_distances(&graph, &vec![2]), vec![0]);
}

#[test]
fn path_metrics_reject_an_empty_sample() {
    let graph = two_node_cycle();
    assert_eq!(calculate_path_metrics(&graph, 0), Err(GraphError::EmptySample));
    assert_eq!(path_metrics_of_sample(&graph, &Vec::new()), Err(GraphError::EmptySample));
    let empty = DiGraph::<u32, ()>::new();
    assert_eq!(calculate_path_metrics(&empty, 0), Err(GraphError::EmptySample));
    assert_eq!(calculate_path_metrics(&empty, 3), Err(GraphError::EmptySample));
}

#[test]
fn path_metrics_reject_a_sample_larger_than_the_graph() {
    let graph = two_node_cycle();
    assert_eq!(
        calculate_path_metrics(&graph, 3),
        Err(GraphError::SampleSizeExceedsPopulation)
    );
}

#[test]
fn path_metrics_of_a_given_sample() {
    // 0 -> 1 -> 2 -> 3, sampled at 0 and 2: pool 0 1 2 3 0 1.
    let graph = construct_graph(&lines(&["0 1", "1 2", "2 3"])).unwrap();
    let metrics = path_metrics_of_sample(&graph, &vec![0, 2]).unwrap();
    assert_eq!(metrics.mean, Fraction { numerator: 7, denominator: 6 });
    assert_eq!(metrics.max, 3);
    assert_eq!(metrics.median, Fraction { numerator: 2, denominator: 2 });
    // sum of (6 x - 7)^2 over the pool: 49 + 1 + 25 + 121 + 49 + 1
    assert_eq!(metrics.variance, Some(Fraction { numerator: 246, denominator: 216 }));
}

#[test]
fn summarize_a_single_value() {
    let metrics = summarize(&vec![5]);
    assert_eq!(metrics.mean, Fraction { numerator: 5, denominator: 1 });
    assert_eq!(metrics.max, 5);
    assert_eq!(metrics.median, Fraction { numerator: 5, denominator: 1 });
    assert_eq!(metrics.variance, Some(Fraction { numerator: 0, denominator: 1 }));
}

#[test]
fn summarize_does_not_reorder_its_input() {
    let pool = vec![4, 1, 3];
    let metrics = summarize(&pool);
    assert_eq!(pool, vec![4, 1, 3]);
    assert_eq!(metrics.max, 4);
    assert_eq!(metrics.median, Fraction { numerator: 3, denominator: 1 });
    assert_eq!(metrics.mean, Fraction { numerator: 8, denominator: 3 });
}

#[test]
fn closeness_is_absent_for_nodes_outside_the_sample() {
    let graph = construct_graph(&lines(&["0 1", "1 2", "2 0"])).unwrap();
    let scores = calculate_closeness_centrality(&graph, 1).unwrap();
    assert_eq!(scores.len(), 1);
    let none = calculate_closeness_centrality(&graph, 0).unwrap();
    assert!(none.is_empty());
}

#[test]
fn closeness_rejects_a_sample_larger_than_the_graph() {
    let graph = two_node_cycle();
    assert_eq!(
        calculate_closeness_centrality(&graph, 3).err(),
        Some(GraphError::SampleSizeExceedsPopulation)
    );
    let empty = DiGraph::<u32, ()>::new();
    assert_eq!(
        calculate_closeness_centrality(&empty, 1).err(),
        Some(GraphError::SampleSizeExceedsPopulation)
    );
    assert!(calculate_closeness_centrality(&empty, 0).unwrap().is_empty());
}

#[test]
fn closeness_scores_of_a_path() {
    // 0 -> 1 -> 2: distances from 0 add up to 3, from 1 to 1, from 2 to 0.
    let graph = construct_graph(&lines(&["0 1", "1 2"])).unwrap();
    let scores = closeness_of_sample(&graph, &vec![0, 1, 2]);
    assert_eq!(scores.get(&0), Some(&Fraction { numerator: 2, denominator: 3 }));
    assert_eq!(scores.get(&1), Some(&Fraction { numerator: 2, denominator: 1 }));
    assert_eq!(scores.get(&2), Some(&Fraction { numerator: 0, denominator: 1 }));
    assert_eq!(scores.len(), 3);
}

#[test]
fn closeness_lies_between_zero_and_node_count_less_one() {
    let graph = construct_graph(&lines(&["0 1", "1 2", "2 0", "2 3", "4 4", "5 0"])).unwrap();
    let n = graph.node_count() as u128;
    let scores = calculate_closeness_centrality(&graph, graph.node_count()).unwrap();
    assert_eq!(scores.len(), graph.node_count());
    for score in scores.values() {
        assert!(score.denominator > 0);
        assert!(score.numerator <= (n - 1) * score.denominator);
    }
    assert_eq!(scores.get(&3), Some(&Fraction { numerator: 0, denominator: 1 }));
    assert_eq!(scores.get(&4), Some(&Fraction { numerator: 0, denominator: 1 }));
}

#[test]
fn closeness_of_a_single_node_is_zero() {
    let mut graph = DiGraph::<u32, ()>::new();
    graph.add_node(9);
    let scores = calculate_closeness_centrality(&graph, 1).unwrap();
    assert_eq!(scores.get(&0), Some(&Fraction { numerator: 0, denominator: 1 }));
}

#[test]
fn total_distance_skips_unreached_nodes() {
    assert_eq!(total_distance(&vec![Some(0), None, Some(3), Some(4), None]), 7);
    assert_eq!(total_distance(&Vec::new()), 0);
    assert_eq!(total_distance(&vec![Some(u32::MAX), Some(u32::MAX)]), 2 * (u32::MAX as u128));
}

#[test]
fn samples_hold_distinct_nodes() {
    let graph = construct_graph(&lines(&["0 1", "1 2", "2 3", "3 4", "4 5", "5 6", "6 7"])).unwrap();
    for size in 0..=graph.node_count() {
        for _ in 0..20 {
            let mut sample = sample_nodes(&graph, size).unwrap();
            assert_eq!(sample.len(), size);
            assert!(sample.iter().all(|&node| node < graph.node_count()));
            sample.sort();
            sample.dedup();
            assert_eq!(sample.len(), size);
        }
    }
    assert_eq!(
        sample_nodes(&graph, graph.node_count() + 1),
        Err(GraphError::SampleSizeExceedsPopulation)
    );
}

#[test]
fn median_of_an_odd_and_an_even_count() {
    let mut odd = vec![9, 1, 5];
    assert_eq!(median(&mut odd), Fraction { numerator: 5, denominator: 1 });
    assert_eq!(odd, vec![1, 5, 9]);
    let mut even = vec![7, 1, 4, 2];
    assert_eq!(median(&mut even), Fraction { numerator: 6, denominator: 2 });
    assert_eq!(even, vec![1, 2, 4, 7]);
    let mut single = vec![3];
    assert_eq!(median(&mut single), Fraction { numerator: 3, denominator: 1 });
    let mut large = vec![u32::MAX, u32::MAX];
    assert_eq!(
        median(&mut large),
        Fraction { numerator: 2 * (u32::MAX as u128), denominator: 2 }
    );
}

#[test]
fn variance_about_a_supplied_mean() {
    let numbers = vec![0, 1, 0, 1];
    let variance = standard_deviation(&numbers, Fraction { numerator: 2, denominator: 4 });
    assert_eq!(variance, Some(Fraction { numerator: 16, denominator: 64 }));
    // The mean is used as supplied, also where it is not the mean of the numbers.
    let about_zero = standard_deviation(&numbers, Fraction { numerator: 0, denominator: 1 });
    assert_eq!(about_zero, Some(Fraction { numerator: 2, denominator: 4 }));
    let about_three = standard_deviation(&vec![1, 5], Fraction { numerator: 3, denominator: 1 });
    assert_eq!(about_three, Some(Fraction { numerator: 8, denominator: 2 }));
}

#[test]
fn variance_is_refused_where_it_does_not_fit() {
    assert_eq!(standard_deviation(&Vec::new(), Fraction { numerator: 0, denominator: 1 }), None);
    let huge = Fraction { numerator: 0, denominator: u128::MAX };
    assert_eq!(standard_deviation(&vec![2], huge), None);
    let wide = Fraction { numerator: u128::MAX, denominator: 1 };
    assert_eq!(standard_deviation(&vec![0], wide), None);
    let square = Fraction { numerator: 0, denominator: 1 << 64 };
    assert_eq!(standard_deviation(&vec![0], square), None);
    let fits = Fraction { numerator: 0, denominator: (1 << 64) - 1 };
    assert_eq!(
        standard_deviation(&vec![0], fits),
        Some(Fraction { numerator: 0, denominator: ((1u128 << 64) - 1) * ((1u128 << 64) - 1) })
    );
}
