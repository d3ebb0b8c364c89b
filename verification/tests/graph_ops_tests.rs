use graph_metrics::error::GraphError;
use graph_metrics::graph_ops::{
    analyze_degree_distribution, bfs_shortest_paths, build_graph, construct_graph, shortest_paths,
};
use petgraph::graph::{DiGraph, NodeIndex};

fn lines(text: &[&str]) -> Vec<String> {
    text.iter().map(|line| line.to_string()).collect()
}

#[test]
fn test_graph_construction() {
    let mut graph = DiGraph::<u32, ()>::new();
    graph.add_node(1);
    graph.add_node(2);
    graph.add_edge(NodeIndex::new(0), NodeIndex::new(1), ());
    assert_eq!(graph.node_count(), 2);
    assert_eq!(graph.edge_count(), 1);
}

#[test]
fn test_degree_distribution() {
    let mut graph = DiGraph::<u32, ()>::new();
    let n1 = graph.add_node(1).index();
    let n2 = graph.add_node(2).index();
    graph.add_edge(NodeIndex::new(n1), NodeIndex::new(n2), ());
    graph.add_edge(NodeIndex::new(n2), NodeIndex::new(n1), ());

    let distribution = analyze_degree_distribution(&graph);
    assert_eq!(distribution.get(&1), Some(&2));
}

#[test]
fn test_bfs_shortest_paths() {
    let mut graph = DiGraph::<u32, ()>::new();
    let n1 = graph.add_node(1).index();
    let n2 = graph.add_node(2).index();
    graph.add_edge(NodeIndex::new(n1), NodeIndex::new(n2), ());

    let paths = bfs_shortest_paths(&graph, n1);
    assert_eq!(paths[n2], Some(1));
}

#[test]
fn construct_assigns_indices_in_first_seen_order() {
    let graph = construct_graph(&lines(&["# header", "10 20", "20 30", "10 30", "30 10"])).unwrap();
    assert_eq!(graph.node_count(), 3);
    assert_eq!(graph.edge_count(), 4);
    assert_eq!(graph[NodeIndex::new(0)], 10);
    assert_eq!(graph[NodeIndex::new(1)], 20);
    assert_eq!(graph[NodeIndex::new(2)], 30);
    let edges: Vec<(usize, usize)> = graph
        .raw_edges()
        .iter()
        .map(|edge| (edge.source().index(), edge.target().index()))
        .collect();
    assert_eq!(edges, vec![(0, 1), (1, 2), (0, 2), (2, 0)]);
}

#[test]
fn construct_keeps_parallel_edges_and_self_loops() {
    let graph = construct_graph(&lines(&["5 5", "5 6", "5 6"])).unwrap();
    assert_eq!(graph.node_count(), 2);
    assert_eq!(graph.edge_count(), 3);
}

#[test]
fn construct_accepts_surrounding_white_space_and_tabs() {
    let graph = construct_graph(&lines(&["  \t# indented comment", "\t1\t2  ", " +3   004 "])).unwrap();
    assert_eq!(graph.node_count(), 4);
    assert_eq!(graph.edge_count(), 2);
    assert_eq!(graph[NodeIndex::new(2)], 3);
    assert_eq!(graph[NodeIndex::new(3)], 4);
}

#[test]
fn construct_of_nothing_is_the_empty_graph() {
    let graph = construct_graph(&Vec::new()).unwrap();
    assert_eq!(graph.node_count(), 0);
    assert_eq!(graph.edge_count(), 0);
    let only_comments = construct_graph(&lines(&["#", "# 1 2"])).unwrap();
    assert_eq!(only_comments.node_count(), 0);
}

#[test]
fn construct_rejects_a_line_with_one_token() {
    let result = construct_graph(&lines(&["1 2", "3"]));
    assert_eq!(result.err(), Some(GraphError::MalformedInput { line: 1 }));
}

#[test]
fn construct_rejects_a_token_that_is_no_number() {
    let result = construct_graph(&lines(&["# ok", "1 2", "2 x", "y"]));
    assert_eq!(result.err(), Some(GraphError::MalformedInput { line: 2 }));
    let negative = construct_graph(&lines(&["-1 2"]));
    assert_eq!(negative.err(), Some(GraphError::MalformedInput { line: 0 }));
}

#[test]
fn construct_rejects_blank_lines_and_extra_tokens() {
    assert_eq!(
        construct_graph(&lines(&["1 2", ""])).err(),
        Some(GraphError::MalformedInput { line: 1 })
    );
    assert_eq!(
        construct_graph(&lines(&["   "])).err(),
        Some(GraphError::MalformedInput { line: 0 })
    );
    assert_eq!(
        construct_graph(&lines(&["1 2 3"])).err(),
        Some(GraphError::MalformedInput { line: 0 })
    );
}

#[test]
fn construct_checks_the_range_of_identifiers() {
    let graph = construct_graph(&lines(&["4294967295 0"])).unwrap();
    assert_eq!(graph[NodeIndex::new(0)], 4294967295);
    assert_eq!(
        construct_graph(&lines(&["4294967296 0"])).err(),
        Some(GraphError::MalformedInput { line: 0 })
    );
    assert_eq!(
        construct_graph(&lines(&["99999999999999999999999 0"])).err(),
        Some(GraphError::MalformedInput { line: 0 })
    );
}

#[test]
fn build_graph_from_pairs() {
    let graph = build_graph(&vec![(7, 9), (9, 7), (8, 7)]);
    assert_eq!(graph.node_count(), 3);
    assert_eq!(graph[NodeIndex::new(0)], 7);
    assert_eq!(graph[NodeIndex::new(1)], 9);
    assert_eq!(graph[NodeIndex::new(2)], 8);
    let edges: Vec<(usize, usize)> = graph
        .raw_edges()
        .iter()
        .map(|edge| (edge.source().index(), edge.target().index()))
        .collect();
    assert_eq!(edges, vec![(0, 1), (1, 0), (2, 0)]);
}

#[test]
fn bfs_on_a_single_edge() {
    let graph = construct_graph(&lines(&["1 2"])).unwrap();
    assert_eq!(bfs_shortest_paths(&graph, 0), vec![Some(0), Some(1)]);
    assert_eq!(bfs_shortest_paths(&graph, 1), vec![None, Some(0)]);
}

#[test]
fn bfs_finds_the_shortest_of_several_routes() {
    // 0 -> 1 -> 2 -> 3 -> 4, with a shortcut 0 -> 3 and an isolated pair 5 -> 6.
    let graph = construct_graph(&lines(&["0 1", "1 2", "2 3", "3 4", "0 3", "5 6"])).unwrap();
    assert_eq!(
        bfs_shortest_paths(&graph, 0),
        vec![Some(0), Some(1), Some(2), Some(1), Some(2), None, None]
    );
    assert_eq!(
        bfs_shortest_paths(&graph, 2),
        vec![None, None, Some(0), Some(1), Some(2), None, None]
    );
}

#[test]
fn bfs_distance_to_the_start_is_zero_on_a_cycle() {
    let graph = construct_graph(&lines(&["0 1", "1 2", "2 0", "0 0"])).unwrap();
    for start in 0..3 {
        let distances = bfs_shortest_paths(&graph, start);
        assert_eq!(distances[start], Some(0));
    }
    assert_eq!(bfs_shortest_paths(&graph, 1), vec![Some(2), Some(0), Some(1)]);
}

#[test]
fn bfs_is_symmetric_where_edges_are_mirrored() {
    let graph = construct_graph(&lines(&["0 1", "1 0", "1 2", "2 1", "2 3", "3 2"])).unwrap();
    for a in 0..4 {
        for b in 0..4 {
            assert_eq!(bfs_shortest_paths(&graph, a)[b], bfs_shortest_paths(&graph, b)[a]);
        }
    }
}

#[test]
fn shortest_paths_reports_a_start_that_is_no_node() {
    let graph = construct_graph(&lines(&["1 2"])).unwrap();
    assert_eq!(shortest_paths(&graph, 2), Err(GraphError::IndexOutOfRange));
    assert_eq!(shortest_paths(&graph, 0), Ok(vec![Some(0), Some(1)]));
    let empty = DiGraph::<u32, ()>::new();
    assert_eq!(shortest_paths(&empty, 0), Err(GraphError::IndexOutOfRange));
}

#[test]
fn degree_distribution_of_the_two_node_cycle() {
    let graph = construct_graph(&lines(&["1 2", "2 1"])).unwrap();
    let distribution = analyze_degree_distribution(&graph);
    assert_eq!(distribution.len(), 1);
    assert_eq!(distribution.get(&1), Some(&2));
}

#[test]
fn degree_distribution_counts_every_node_once() {
    let graph = construct_graph(&lines(&["0 1", "0 2", "0 2", "1 2", "3 3"])).unwrap();
    let distribution = analyze_degree_distribution(&graph);
    assert_eq!(distribution.get(&3), Some(&1));
    assert_eq!(distribution.get(&1), Some(&2));
    assert_eq!(distribution.get(&0), Some(&1));
    assert_eq!(distribution.len(), 3);
    assert_eq!(distribution.values().sum::<usize>(), graph.node_count());
}

#[test]
fn degree_distribution_of_the_empty_graph_is_empty() {
    let graph = DiGraph::<u32, ()>::new();
    assert!(analyze_degree_distribution(&graph).is_empty());
}

#[test]
fn error_descriptions_differ() {
    let all = [
        GraphError::MalformedInput { line: 0 },
        GraphError::IndexOutOfRange,
        GraphError::SampleSizeExceedsPopulation,
        GraphError::EmptySample,
    ];
    for (i, a) in all.iter().enumerate() {
        for (j, b) in all.iter().enumerate() {
            assert_eq!(i == j, a.description() == b.description());
        }
    }
}
