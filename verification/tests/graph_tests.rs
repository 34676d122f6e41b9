use fineman::graph::{Graph, ProperGraph, SimpleGraph};
use fineman::standard_algorithms::{dijkstra, BorrowedWeightedGraph};

fn graph_of(n: usize, edges: &[(usize, usize, i64)]) -> Graph {
    let mut g = Graph::new(n);
    for &(u, v, w) in edges {
        g.add_edge(u, v, w);
    }
    g
}

#[test]
fn new_graph_has_empty_rows() {
    let g = Graph::new(3);
    assert_eq!(g.n, 3);
    assert_eq!(g.edges.len(), 3);
    assert!(g.edges.iter().all(|r| r.is_empty()));
}

#[test]
fn add_edge_appends_to_the_row() {
    let mut g = Graph::new(3);
    g.add_edge(0, 2, 5);
    g.add_edge(0, 1, -4);
    g.add_edge(2, 2, 7);
    assert_eq!(g.edges[0], vec![(2, 5), (1, -4)]);
    assert!(g.edges[1].is_empty());
    assert_eq!(g.edges[2], vec![(2, 7)]);
}

#[test]
fn simplify_drops_self_loops_and_keeps_lightest_parallel_edge() {
    let g = graph_of(3, &[(0, 2, 5), (0, 1, 3), (0, 2, -1), (0, 0, 4), (1, 2, 8), (1, 2, 8), (2, 0, 0)]);
    let sg = SimpleGraph::try_from(g).unwrap();
    assert_eq!(sg.n, 3);
    assert_eq!(sg.edges[0], vec![(1, 3), (2, -1)]);
    assert_eq!(sg.edges[1], vec![(2, 8)]);
    assert_eq!(sg.edges[2], vec![(0, 0)]);
    assert!(sg.is_well_formed());
}

#[test]
fn simplify_sorts_each_row_by_target() {
    let g = graph_of(4, &[(0, 3, 1), (0, 1, 2), (0, 2, 3)]);
    let sg = SimpleGraph::try_from(g).unwrap();
    assert_eq!(sg.edges[0], vec![(1, 2), (2, 3), (3, 1)]);
}

#[test]
fn simplify_refuses_a_negative_self_loop() {
    let g = graph_of(2, &[(0, 1, 1), (1, 1, -2)]);
    assert!(SimpleGraph::try_from(g).is_err());
}

#[test]
fn simplify_keeps_a_zero_self_loop_out() {
    let g = graph_of(2, &[(1, 1, 0), (1, 0, 2)]);
    let sg = SimpleGraph::try_from(g).unwrap();
    assert_eq!(sg.edges[1], vec![(0, 2)]);
}

#[test]
fn simple_sanity_check_spots_parallel_edges_and_loops() {
    let parallel = SimpleGraph { n: 2, edges: vec![vec![(1, 1), (1, 2)], vec![]] };
    assert!(!parallel.is_well_formed());
    let looped = SimpleGraph { n: 2, edges: vec![vec![(0, 1)], vec![]] };
    assert!(!looped.is_well_formed());
    let outside = SimpleGraph { n: 2, edges: vec![vec![(2, 1)], vec![]] };
    assert!(!outside.is_well_formed());
    let short = SimpleGraph { n: 2, edges: vec![vec![]] };
    assert!(!short.is_well_formed());
    let fine = SimpleGraph { n: 2, edges: vec![vec![(1, 1)], vec![(0, -3)]] };
    assert!(fine.is_well_formed());
}

#[test]
fn proper_graph_of_an_edgeless_graph_is_unchanged() {
    let pg = ProperGraph::try_from(Graph::new(10)).unwrap();
    assert_eq!(pg.n, 10);
    assert!(pg.edges.iter().all(|r| r.is_empty()));
    assert!(pg.is_well_formed());
    assert_eq!(pg.max_degree_vs_degree_bound(), (0, 1));
}

#[test]
fn proper_graph_splits_a_high_out_degree() {
    // m = 4, n = 5: allowance ceil(8 / 5) + 1 = 3, so vertex 0 gets one auxiliary.
    let g = graph_of(5, &[(0, 1, 10), (0, 2, 20), (0, 3, 30), (0, 4, 40)]);
    let sg = SimpleGraph::try_from(g).unwrap();
    let pg = ProperGraph::from(sg);
    assert_eq!(pg.n, 6);
    assert_eq!(pg.edges[0], vec![(5, 0), (4, 40)]);
    assert_eq!(pg.edges[5], vec![(1, 10), (2, 20), (3, 30)]);
    for v in 1..5 {
        assert!(pg.edges[v].is_empty());
    }
    assert!(pg.is_well_formed());
    // 5 edges on 6 vertices: allowance ceil(20 / 6) + 1 = 5.
    assert_eq!(pg.max_degree_vs_degree_bound(), (3, 5));
}

#[test]
fn proper_graph_splits_a_high_in_degree() {
    let g = graph_of(5, &[(1, 0, 1), (2, 0, 2), (3, 0, 3), (4, 0, 4)]);
    let pg = ProperGraph::try_from(g).unwrap();
    assert_eq!(pg.n, 6);
    assert!(pg.edges[0].is_empty());
    assert_eq!(pg.edges[1], vec![(5, 1)]);
    assert_eq!(pg.edges[2], vec![(5, 2)]);
    assert_eq!(pg.edges[3], vec![(5, 3)]);
    assert_eq!(pg.edges[4], vec![(0, 4)]);
    assert_eq!(pg.edges[5], vec![(0, 0)]);
    assert!(pg.is_well_formed());
    assert_eq!(pg.max_degree_vs_degree_bound(), (3, 5));
}

#[test]
fn proper_graph_adds_at_most_n_vertices_and_as_many_edges() {
    // a complete out-star and in-star around vertex 0
    let n = 9;
    let mut edges = Vec::new();
    for v in 1..n {
        edges.push((0, v, v as i64));
        edges.push((v, 0, -(v as i64)));
    }
    let g = graph_of(n, &edges);
    let m = edges.len();
    let pg = ProperGraph::try_from(g).unwrap();
    assert!(pg.n >= n && pg.n <= 2 * n);
    let m2: usize = pg.edges.iter().map(|r| r.len()).sum();
    assert_eq!(m2, m + (pg.n - n));
    assert!(pg.is_well_formed());
    let (max_deg, bound) = pg.max_degree_vs_degree_bound();
    assert!(max_deg <= bound);
}

#[test]
fn proper_graph_refuses_a_negative_self_loop() {
    let g = graph_of(3, &[(0, 1, 1), (2, 2, -1)]);
    assert!(ProperGraph::try_from(g).is_err());
}

#[test]
fn proper_sanity_check_spots_a_high_degree() {
    // 4 edges on 5 vertices: allowance ceil(16 / 5) + 1 = 5; vertex 0 has 4.
    let ok = ProperGraph { n: 5, edges: vec![vec![(1, 0), (2, 0), (3, 0), (4, 0)], vec![], vec![], vec![], vec![]] };
    assert!(ok.is_well_formed());
    // 6 edges on 7 vertices: allowance ceil(24 / 7) + 1 = 5; vertex 0 has 6.
    let too_many = ProperGraph {
        n: 7,
        edges: vec![vec![(1, 0), (2, 0), (3, 0), (4, 0), (5, 0), (6, 0)], vec![], vec![], vec![], vec![], vec![], vec![]],
    };
    assert!(!too_many.is_well_formed());
    assert_eq!(too_many.max_degree_vs_degree_bound(), (6, 5));
}

#[test]
fn max_degree_counts_in_degrees_too() {
    let pg = ProperGraph { n: 3, edges: vec![vec![(2, 1)], vec![(2, 1)], vec![]] };
    // 2 edges on 3 vertices: allowance ceil(8 / 3) + 1 = 4; vertex 2 has in-degree 2.
    assert_eq!(pg.max_degree_vs_degree_bound(), (2, 4));
}

#[test]
fn proper_graph_keeps_distances_between_input_vertices() {
    // m = 14 edges on n = 8 vertices: allowance ceil(28 / 8) + 1 = 5 < 7 = out-degree of 0
    let n = 8;
    let mut edges = Vec::new();
    for v in 1..n {
        edges.push((0, v, 3 * v as i64));
        if v + 1 < n {
            edges.push((v, v + 1, 1));
        }
    }
    edges.push((7, 0, 2));
    let g = graph_of(n, &edges);
    let sg = SimpleGraph::try_from(g.clone()).unwrap();
    let pg = ProperGraph::from(sg.clone());
    assert!(pg.n > n);
    for s in 0..n {
        let no_neg = vec![Vec::new(); n];
        let before = BorrowedWeightedGraph { n, pedges: &sg.edges, nedges: &no_neg };
        let mut start = vec![None; n];
        start[s] = Some(0);
        let d1 = dijkstra(before, start);
        let no_neg2 = vec![Vec::new(); pg.n];
        let after = BorrowedWeightedGraph { n: pg.n, pedges: &pg.edges, nedges: &no_neg2 };
        let mut start2 = vec![None; pg.n];
        start2[s] = Some(0);
        let d2 = dijkstra(after, start2);
        assert_eq!(d1[..], d2[..n]);
    }
}

#[test]
fn simplify_keeps_distances() {
    let g = graph_of(4, &[(0, 1, 5), (0, 1, 2), (0, 0, 1), (1, 2, 4), (1, 2, 9), (2, 3, 1), (0, 3, 10), (3, 3, 0)]);
    let sg = SimpleGraph::try_from(g.clone()).unwrap();
    let no_neg = vec![Vec::new(); 4];
    for s in 0..4 {
        let mut start = vec![None; 4];
        start[s] = Some(0);
        let before = dijkstra(BorrowedWeightedGraph { n: 4, pedges: &g.edges, nedges: &no_neg }, start.clone());
        let after = dijkstra(BorrowedWeightedGraph { n: 4, pedges: &sg.edges, nedges: &no_neg }, start);
        assert_eq!(before, after);
    }
    let mut start = vec![None; 4];
    start[0] = Some(0);
    let d = dijkstra(BorrowedWeightedGraph { n: 4, pedges: &sg.edges, nedges: &no_neg }, start);
    assert_eq!(d, vec![Some(0), Some(2), Some(6), Some(7)]);
}

#[test]
fn sanity_checks_pass_on_well_formed_graphs() {
    let sg = SimpleGraph { n: 2, edges: vec![vec![(1, 1)], vec![(0, -3)]] };
    sg.sanity_check();
    let pg = ProperGraph::try_from(graph_of(3, &[(0, 1, 1), (1, 2, 2)])).unwrap();
    pg.sanity_check();
}

#[test]
fn missing_rows_count_as_empty() {
    let g = Graph { n: 4, edges: vec![vec![(2, 3), (1, 1), (2, 1)], vec![(3, 2)]] };
    let sg = SimpleGraph::try_from(g.clone()).unwrap();
    assert_eq!(sg.n, 4);
    assert_eq!(sg.edges, vec![vec![(1, 1), (2, 1)], vec![(3, 2)], vec![], vec![]]);
    let pg = ProperGraph::try_from(g).unwrap();
    assert_eq!(pg.n, 4);
    assert_eq!(pg.edges, vec![vec![(1, 1), (2, 1)], vec![(3, 2)], vec![], vec![]]);
}

#[test]
fn proper_graph_gives_each_vertex_the_fewest_auxiliaries() {
    // m = 8 edges on n = 9 vertices: allowance ceil(16 / 9) + 1 = 3; out-degree 8 of
    // vertex 0 needs ceil((8 - 3) / 2) = 3 auxiliaries, nothing else needs any
    let edges: Vec<(usize, usize, i64)> = (1..9).map(|v| (0, v, v as i64)).collect();
    let pg = ProperGraph::try_from(graph_of(9, &edges)).unwrap();
    assert_eq!(pg.n, 12);
    assert_eq!(pg.edges[0], vec![(9, 0), (8, 8)]);
    assert_eq!(pg.edges[9], vec![(10, 0), (6, 6), (7, 7)]);
    assert_eq!(pg.edges[10], vec![(11, 0), (4, 4), (5, 5)]);
    assert_eq!(pg.edges[11], vec![(1, 1), (2, 2), (3, 3)]);
}

#[test]
fn proper_graph_from_wires_in_edges_greedily() {
    let sg = SimpleGraph { n: 5, edges: vec![vec![], vec![(0, 1)], vec![(0, 2)], vec![(0, 3)], vec![(0, 4)]] };
    let pg = ProperGraph::from(sg);
    assert_eq!(pg.n, 6);
    assert_eq!(
        pg.edges,
        vec![vec![], vec![(5, 1)], vec![(5, 2)], vec![(5, 3)], vec![(0, 4)], vec![(0, 0)]]
    );
}

#[test]
fn proper_try_from_agrees_with_from_of_simple_try_from() {
    // an out-star and an in-star around 0, with a parallel edge and a self-loop
    let n = 9;
    let mut edges = vec![(0, 1, 9), (2, 2, 0)];
    for v in 1..n {
        edges.push((0, v, v as i64));
        edges.push((v, 0, 2 * v as i64));
    }
    let direct = ProperGraph::try_from(graph_of(n, &edges)).unwrap();
    let simple = SimpleGraph::try_from(graph_of(n, &edges)).unwrap();
    let staged = ProperGraph::from(simple);
    assert_eq!(direct.n, staged.n);
    assert_eq!(direct.edges, staged.edges);
    assert!(direct.n > n);
}
