use graph_centrality::centrality::{normalized_degree, ClosenessScore, DegreeScore};
use graph_centrality::graph::{Graph, GraphError};

fn build(edges: &[(&str, &str)]) -> Graph {
    let pairs: Vec<(String, String)> =
        edges.iter().map(|(s, t)| (s.to_string(), t.to_string())).collect();
    let mut g = Graph::new();
    g.init(&pairs);
    g
}

fn degree_score_f32(sc: &DegreeScore) -> f32 {
    if sc.total <= 1 {
        0.0
    } else {
        sc.degree as f32 / (sc.total - 1) as f32
    }
}

fn closeness_score_f32(sc: &ClosenessScore) -> f32 {
    if sc.dist_sum == 0 || sc.total <= 1 {
        0.0
    } else {
        let n = sc.reached as f32;
        let big_n = sc.total as f32;
        ((n - 1.0) / (big_n - 1.0)) * (n / sc.dist_sum as f32)
    }
}

#[test]
fn test_degree() {
    let mut edges: Vec<(String, String)> = Vec::new();
    let mut target_degree: Vec<(String, usize)> = vec![("0".to_string(), 0)];
    for i in 1..5usize {
        for j in 0..i {
            edges.push((i.to_string(), j.to_string()));
        }
        target_degree.push((i.to_string(), i));
    }
    target_degree.sort_by_key(|k| std::cmp::Reverse(k.1));

    let mut testgraph = Graph::new();
    testgraph.init(&edges);
    let deg = testgraph.degree();
    assert_eq!(deg, target_degree);
}

#[test]
fn test_reverse() {
    let graph = build(&[("A", "B"), ("B", "C")]);
    let reversed_graph = graph.reverse();

    assert_eq!(reversed_graph.neighbors(&"A".to_string()), Ok(Vec::<String>::new()));
    assert_eq!(reversed_graph.neighbors(&"B".to_string()), Ok(vec!["A".to_string()]));
    assert_eq!(reversed_graph.neighbors(&"C".to_string()), Ok(vec!["B".to_string()]));
}

#[test]
fn test_shortest_paths() {
    let graph = build(&[("A", "B"), ("B", "C")]);
    let distances = graph.shortest_paths("A".to_string()).unwrap();

    let expected_distances = vec![
        ("A".to_string(), 0usize),
        ("B".to_string(), 1usize),
        ("C".to_string(), 2usize),
    ];
    assert_eq!(distances, expected_distances);
}

#[test]
fn chain_scenario_tables() {
    // A -> B -> C: degrees A:1, B:1, C:0, sorted descending with the tie
    // in node order.
    let g = build(&[("A", "B"), ("B", "C")]);
    let deg = g.degree();
    assert_eq!(deg.len(), 3);
    assert_eq!(deg[0], ("A".to_string(), 1));
    assert_eq!(deg[1], ("B".to_string(), 1));
    assert_eq!(deg[2], ("C".to_string(), 0));

    let sp = g.shortest_paths("A".to_string()).unwrap();
    assert_eq!(sp, vec![
        ("A".to_string(), 0),
        ("B".to_string(), 1),
        ("C".to_string(), 2)
    ]);

    let r = g.reverse();
    assert_eq!(r.neighbors(&"A".to_string()).unwrap(), Vec::<String>::new());
    assert_eq!(r.neighbors(&"B".to_string()).unwrap(), vec!["A".to_string()]);
    assert_eq!(r.neighbors(&"C".to_string()).unwrap(), vec!["B".to_string()]);
}

#[test]
fn single_node_all_scores_zero() {
    // One node, no arcs: every centrality output is a zero score, not a
    // failure.
    let g = Graph { labels: vec!["A".to_string()], adj: vec![vec![]] };
    assert_eq!(g.size(), 1);

    let out = g.out_degree_centrality();
    assert_eq!(out.len(), 1);
    assert_eq!(out[0].0, "A".to_string());
    assert_eq!(degree_score_f32(&out[0].1), 0.0);

    let inn = g.in_degree_centrality();
    assert_eq!(inn.len(), 1);
    assert_eq!(degree_score_f32(&inn[0].1), 0.0);

    let close = g.closeness_centrality();
    assert_eq!(close.len(), 1);
    assert_eq!(close[0].0, "A".to_string());
    assert_eq!(closeness_score_f32(&close[0].1), 0.0);
}

#[test]
fn empty_graph_empty_tables() {
    let mut g = Graph::new();
    g.init(&Vec::new());
    assert_eq!(g.size(), 0);
    assert!(g.degree().is_empty());
    assert!(g.out_degree_centrality().is_empty());
    assert!(g.in_degree_centrality().is_empty());
    assert!(g.closeness_centrality().is_empty());
}

#[test]
fn degree_centrality_is_degree_over_n_minus_one() {
    // A -> B, A -> C, B -> C: out-degrees 2, 1, 0 over N - 1 = 2.
    let g = build(&[("A", "B"), ("A", "C"), ("B", "C")]);
    let out = g.out_degree_centrality();
    assert_eq!(out[0].0, "A".to_string());
    assert_eq!(out[0].1, DegreeScore { degree: 2, total: 3 });
    assert_eq!(degree_score_f32(&out[0].1), 1.0);
    assert_eq!(out[1].0, "B".to_string());
    assert_eq!(degree_score_f32(&out[1].1), 0.5);
    assert_eq!(out[2].0, "C".to_string());
    assert_eq!(degree_score_f32(&out[2].1), 0.0);

    let inn = g.in_degree_centrality();
    assert_eq!(inn[0].0, "C".to_string());
    assert_eq!(inn[0].1, DegreeScore { degree: 2, total: 3 });
    assert_eq!(inn[1].0, "B".to_string());
    assert_eq!(inn[1].1, DegreeScore { degree: 1, total: 3 });
    assert_eq!(inn[2].0, "A".to_string());
    assert_eq!(inn[2].1, DegreeScore { degree: 0, total: 3 });
}

#[test]
fn closeness_chain_exact_values() {
    // A -> B -> C, N = 3.
    // A reaches {A, B, C}: n = 3, S = 3, score (2/2)*(3/3) = 1.
    // B reaches {B, C}: n = 2, S = 1, score (1/2)*(2/1) = 1.
    // C reaches only itself: score 0.
    let g = build(&[("A", "B"), ("B", "C")]);
    let close = g.closeness_centrality();
    assert_eq!(close.len(), 3);
    assert_eq!(close[0].0, "A".to_string());
    assert_eq!(close[0].1, ClosenessScore { reached: 3, dist_sum: 3, total: 3 });
    assert_eq!(closeness_score_f32(&close[0].1), 1.0);
    assert_eq!(close[1].0, "B".to_string());
    assert_eq!(close[1].1, ClosenessScore { reached: 2, dist_sum: 1, total: 3 });
    assert_eq!(closeness_score_f32(&close[1].1), 1.0);
    assert_eq!(close[2].0, "C".to_string());
    assert_eq!(close[2].1, ClosenessScore { reached: 1, dist_sum: 0, total: 3 });
    assert_eq!(closeness_score_f32(&close[2].1), 0.0);
}

#[test]
fn closeness_isolated_self_loop_is_zero() {
    // A node whose only arc is a self-loop reaches nothing beyond itself.
    let g = build(&[("A", "B"), ("X", "X")]);
    let close = g.closeness_centrality();
    let x = close.iter().find(|e| e.0 == "X").unwrap();
    assert_eq!(closeness_score_f32(&x.1), 0.0);
    assert_eq!(x.1.dist_sum, 0);
    assert_eq!(x.1.reached, 1);
    // The self-loop still counts as an outgoing arc for the degree table.
    let deg = g.degree();
    let xd = deg.iter().find(|e| e.0 == "X").unwrap();
    assert_eq!(xd.1, 1);
}

#[test]
fn closeness_twice_identical() {
    let g = build(&[("A", "B"), ("B", "C"), ("C", "A"), ("B", "D")]);
    let first = g.closeness_centrality();
    let second = g.closeness_centrality();
    assert_eq!(first, second);
}

#[test]
fn reverse_twice_same_arc_multisets() {
    // Parallel arcs and a self-loop survive a double reversal per node.
    let g = build(&[("A", "B"), ("A", "B"), ("B", "A"), ("C", "C"), ("A", "C")]);
    let rr = g.reverse().reverse();
    for node in ["A", "B", "C"] {
        let mut orig = g.neighbors(&node.to_string()).unwrap();
        let mut back = rr.neighbors(&node.to_string()).unwrap();
        orig.sort();
        back.sort();
        assert_eq!(orig, back);
    }
}

#[test]
fn unknown_node_errors() {
    let g = build(&[("A", "B")]);
    assert_eq!(g.neighbors(&"Z".to_string()), Err(GraphError::UnknownNode));
    assert_eq!(g.shortest_paths("Z".to_string()), Err(GraphError::UnknownNode));
}

#[test]
fn degenerate_normalization_refused() {
    assert_eq!(normalized_degree(5, 1), Err(GraphError::DivisionUndefined));
    assert_eq!(normalized_degree(0, 0), Err(GraphError::DivisionUndefined));
    assert_eq!(normalized_degree(2, 3), Ok(DegreeScore { degree: 2, total: 3 }));
}

#[test]
fn duplicate_edges_count_twice() {
    let g = build(&[("A", "B"), ("A", "B")]);
    let deg = g.degree();
    assert_eq!(deg[0], ("A".to_string(), 2));
    assert_eq!(deg[1], ("B".to_string(), 0));
    assert_eq!(g.neighbors(&"A".to_string()).unwrap(), vec![
        "B".to_string(),
        "B".to_string()
    ]);
}

#[test]
fn shortest_paths_skips_unreachable() {
    // B -> C only: from B, node A is absent from the distance map.
    let g = build(&[("A", "B"), ("B", "C")]);
    let sp = g.shortest_paths("B".to_string()).unwrap();
    assert_eq!(sp, vec![("B".to_string(), 0), ("C".to_string(), 1)]);
}

#[test]
fn four_ranked_tables() {
    // A -> B, C -> B.  Out-degree favors A and C; in-degree favors B.
    // Out-closeness measures the graph itself, in-closeness the reverse.
    let g = build(&[("A", "B"), ("C", "B")]);

    let out_deg = g.out_degree_centrality();
    assert_eq!(out_deg[0].1, DegreeScore { degree: 1, total: 3 });
    assert_eq!(out_deg[1].1, DegreeScore { degree: 1, total: 3 });
    assert_eq!(out_deg[2].0, "B".to_string());
    assert_eq!(out_deg[2].1, DegreeScore { degree: 0, total: 3 });

    let in_deg = g.in_degree_centrality();
    assert_eq!(in_deg[0].0, "B".to_string());
    assert_eq!(in_deg[0].1, DegreeScore { degree: 2, total: 3 });

    let out_close = g.closeness_centrality();
    assert_eq!(out_close[0].0, "A".to_string());
    assert_eq!(closeness_score_f32(&out_close[0].1), 1.0);
    assert_eq!(out_close[1].0, "C".to_string());
    assert_eq!(closeness_score_f32(&out_close[1].1), 1.0);
    assert_eq!(out_close[2].0, "B".to_string());
    assert_eq!(closeness_score_f32(&out_close[2].1), 0.0);

    let in_close = g.reverse().closeness_centrality();
    assert_eq!(in_close[0].0, "B".to_string());
    assert_eq!(in_close[0].1, ClosenessScore { reached: 3, dist_sum: 2, total: 3 });
    assert_eq!(closeness_score_f32(&in_close[0].1), 1.5);
    assert_eq!(closeness_score_f32(&in_close[1].1), 0.0);
    assert_eq!(closeness_score_f32(&in_close[2].1), 0.0);
}
