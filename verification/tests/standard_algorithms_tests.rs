use fineman::standard_algorithms::{bellman_ford, dijkstra, dijkstra_with_origins, BorrowedWeightedGraph};

fn empty_neg(n: usize) -> Vec<Vec<(usize, i64, bool)>> {
    vec![Vec::new(); n]
}

#[test]
fn dijkstra_single_source_distances() {
    let pedges = vec![vec![(1, 1), (2, 4)], vec![(2, 2)], vec![(3, 1)], vec![], vec![]];
    let nedges = empty_neg(5);
    let g = BorrowedWeightedGraph { n: 5, pedges: &pedges, nedges: &nedges };
    let d = dijkstra(g, vec![Some(0), None, None, None, None]);
    assert_eq!(d, vec![Some(0), Some(1), Some(3), Some(4), None]);
}

#[test]
fn dijkstra_keeps_better_starts() {
    let pedges = vec![vec![(1, 5)], vec![(2, 5)], vec![]];
    let nedges = empty_neg(3);
    let g = BorrowedWeightedGraph { n: 3, pedges: &pedges, nedges: &nedges };
    // vertex 2 starts at 3, better than the 10 it would get from vertex 0
    let d = dijkstra(g, vec![Some(0), None, Some(3)]);
    assert_eq!(d, vec![Some(0), Some(5), Some(3)]);
}

#[test]
fn dijkstra_from_negative_starts() {
    let pedges = vec![vec![(1, 2)], vec![], vec![(1, 0)]];
    let nedges = empty_neg(3);
    let g = BorrowedWeightedGraph { n: 3, pedges: &pedges, nedges: &nedges };
    let d = dijkstra(g, vec![Some(0), None, Some(-7)]);
    assert_eq!(d, vec![Some(0), Some(-7), Some(-7)]);
}

#[test]
fn dijkstra_ignores_negative_edges() {
    let pedges = vec![vec![], vec![]];
    let nedges = vec![vec![(1, -3, true)], vec![]];
    let g = BorrowedWeightedGraph { n: 2, pedges: &pedges, nedges: &nedges };
    assert_eq!(dijkstra(g, vec![Some(0), None]), vec![Some(0), None]);
}

#[test]
fn dijkstra_with_origins_tracks_the_winning_start() {
    let pedges = vec![vec![(1, 1)], vec![(2, 1)], vec![], vec![(2, 10)]];
    let nedges = empty_neg(4);
    let g = BorrowedWeightedGraph { n: 4, pedges: &pedges, nedges: &nedges };
    let d = dijkstra_with_origins(g, vec![Some((0, 7)), None, None, Some((0, 9))]);
    assert_eq!(d, vec![Some((0, 7)), Some((1, 7)), Some((2, 7)), Some((0, 9))]);
}

#[test]
fn bellman_ford_gives_a_potential() {
    let pedges = vec![vec![(1, 2)], vec![], vec![]];
    let nedges = vec![vec![], vec![(2, -5, true)], vec![]];
    let g = BorrowedWeightedGraph { n: 3, pedges: &pedges, nedges: &nedges };
    let d = bellman_ford(g).unwrap();
    assert_eq!(d, vec![0, 0, -5]);
    // the potential makes every edge non-negative
    assert!(2 + d[0] - d[1] >= 0);
    assert!(-5 + d[1] - d[2] >= 0);
}

#[test]
fn bellman_ford_follows_chains_of_negative_edges() {
    let pedges = vec![vec![], vec![(2, 1)], vec![]];
    let nedges = vec![vec![(1, -2, true)], vec![], vec![(0, -1, true)]];
    let g = BorrowedWeightedGraph { n: 3, pedges: &pedges, nedges: &nedges };
    // 2 -> 0 -> 1 -> 2 weighs -2: a negative cycle
    assert!(bellman_ford(g).is_err());
}

#[test]
fn bellman_ford_skips_inactive_edges() {
    let pedges = vec![vec![(1, 2)], vec![], vec![]];
    let nedges = vec![vec![], vec![(2, -5, false)], vec![]];
    let g = BorrowedWeightedGraph { n: 3, pedges: &pedges, nedges: &nedges };
    assert_eq!(bellman_ford(g).unwrap(), vec![0, 0, 0]);
}

#[test]
fn bellman_ford_reports_a_negative_cycle() {
    let pedges = vec![vec![], vec![(0, 0)]];
    let nedges = vec![vec![(1, -1, true)], vec![]];
    let g = BorrowedWeightedGraph { n: 2, pedges: &pedges, nedges: &nedges };
    assert!(bellman_ford(g).is_err());
}

#[test]
fn bellman_ford_on_no_vertex_gives_the_empty_potential() {
    let pedges: Vec<Vec<(usize, i64)>> = Vec::new();
    let nedges: Vec<Vec<(usize, i64, bool)>> = Vec::new();
    let g = BorrowedWeightedGraph { n: 0, pedges: &pedges, nedges: &nedges };
    assert_eq!(bellman_ford(g), Ok(Vec::new()));
}

#[test]
fn dijkstra_again_changes_nothing() {
    let pedges = vec![vec![(1, 1), (2, 4)], vec![(2, 2)], vec![(3, 1)], vec![], vec![]];
    let nedges = empty_neg(5);
    let g = BorrowedWeightedGraph { n: 5, pedges: &pedges, nedges: &nedges };
    let d1 = dijkstra(g, vec![Some(0), None, None, Some(2), None]);
    let d2 = dijkstra(g, d1.clone());
    assert_eq!(d1, d2);
}
