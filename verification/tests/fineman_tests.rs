use fineman::fineman_algorithm::finding_sandwich::Outcome;
use fineman::fineman_algorithm::sandwiches_to_r_remoteness::sandwiches_to_r_remoteness;
use fineman::fineman_algorithm::{
    bellman_ford_dijkstra_up_to_h_hops, bellman_ford_dijkstra_up_to_h_hops_with_origins,
    bellman_ford_dijkstra_with_hops_bound, negative_h_hop_reach, PricedGraph,
};
use fineman::standard_algorithms::{dijkstra, BorrowedWeightedGraph};

/// 0 -(-1)-> 1 -(-1)-> 2, all negative edges active.
fn neg_chain() -> (Vec<Vec<(usize, i64)>>, Vec<Vec<(usize, i64, bool)>>) {
    (vec![vec![], vec![], vec![]], vec![vec![(1, -1, true)], vec![(2, -1, true)], vec![]])
}

/// Builds a priced graph with zero prices and the reversed rows filled in.
fn priced(n: usize, pedges: Vec<Vec<(usize, i64)>>, nedges: Vec<Vec<(usize, i64, bool)>>) -> PricedGraph {
    let mut pedges_rev = vec![Vec::new(); n];
    for (u, row) in pedges.iter().enumerate() {
        for &(v, w) in row {
            pedges_rev[v].push((u, w));
        }
    }
    let mut nedges_rev = vec![Vec::new(); n];
    for (u, row) in nedges.iter().enumerate() {
        for &(v, w, t) in row {
            nedges_rev[v].push((u, w, t));
        }
    }
    PricedGraph { n, pedges, pedges_rev, nedges, nedges_rev, prices: vec![0; n] }
}

#[test]
fn up_to_h_hops_grows_with_h() {
    let (p, ne) = neg_chain();
    let g = BorrowedWeightedGraph { n: 3, pedges: &p, nedges: &ne };
    let start = vec![Some(0), None, None];
    assert_eq!(bellman_ford_dijkstra_up_to_h_hops(g, 0, start.clone()), vec![Some(0), None, None]);
    assert_eq!(bellman_ford_dijkstra_up_to_h_hops(g, 1, start.clone()), vec![Some(0), Some(-1), None]);
    assert_eq!(bellman_ford_dijkstra_up_to_h_hops(g, 2, start.clone()), vec![Some(0), Some(-1), Some(-2)]);
    assert_eq!(bellman_ford_dijkstra_up_to_h_hops(g, 5, start), vec![Some(0), Some(-1), Some(-2)]);
}

#[test]
fn up_to_h_hops_mixes_both_kinds_of_edges() {
    let p = vec![vec![(1, 1)], vec![], vec![(3, 4)], vec![]];
    let ne = vec![vec![], vec![(2, -3, true)], vec![], vec![(0, -10, false)]];
    let g = BorrowedWeightedGraph { n: 4, pedges: &p, nedges: &ne };
    let start = vec![Some(0), None, None, None];
    assert_eq!(bellman_ford_dijkstra_up_to_h_hops(g, 0, start.clone()), vec![Some(0), Some(1), None, None]);
    // the inactive edge 3 -> 0 is never used
    assert_eq!(bellman_ford_dijkstra_up_to_h_hops(g, 3, start), vec![Some(0), Some(1), Some(-2), Some(2)]);
}

#[test]
fn up_to_h_hops_with_origins_carries_the_origin() {
    let (p, ne) = neg_chain();
    let g = BorrowedWeightedGraph { n: 3, pedges: &p, nedges: &ne };
    let res = bellman_ford_dijkstra_up_to_h_hops_with_origins(g, 2, vec![Some((0, 4)), None, None]);
    assert_eq!(res, vec![Some((0, 4)), Some((-1, 4)), Some((-2, 4))]);
}

#[test]
fn hops_bound_succeeds_with_enough_hops() {
    let (p, ne) = neg_chain();
    let g = BorrowedWeightedGraph { n: 3, pedges: &p, nedges: &ne };
    assert_eq!(bellman_ford_dijkstra_with_hops_bound(g, 2), Ok(vec![0, -1, -2]));
    assert_eq!(bellman_ford_dijkstra_with_hops_bound(g, 3), Ok(vec![0, -1, -2]));
}

#[test]
fn hops_bound_fails_with_too_few_hops() {
    let (p, ne) = neg_chain();
    let g = BorrowedWeightedGraph { n: 3, pedges: &p, nedges: &ne };
    assert_eq!(bellman_ford_dijkstra_with_hops_bound(g, 1), Err(()));
    assert_eq!(bellman_ford_dijkstra_with_hops_bound(g, 0), Err(()));
}

#[test]
fn hops_bound_fails_on_a_negative_cycle() {
    let p = vec![vec![], vec![(0, 0)]];
    let ne = vec![vec![(1, -1, true)], vec![]];
    let g = BorrowedWeightedGraph { n: 2, pedges: &p, nedges: &ne };
    assert_eq!(bellman_ford_dijkstra_with_hops_bound(g, 10), Err(()));
}

#[test]
fn hops_bound_without_negative_edges() {
    let p = vec![vec![(1, 3)], vec![]];
    let ne = vec![vec![], vec![]];
    let g = BorrowedWeightedGraph { n: 2, pedges: &p, nedges: &ne };
    assert_eq!(bellman_ford_dijkstra_with_hops_bound(g, 0), Ok(vec![0, 0]));
}

#[test]
fn negative_reach_lists_vertices_in_order() {
    let (p, ne) = neg_chain();
    let g = BorrowedWeightedGraph { n: 3, pedges: &p, nedges: &ne };
    assert_eq!(negative_h_hop_reach(g, 0, &[0]), Vec::<usize>::new());
    assert_eq!(negative_h_hop_reach(g, 1, &[0]), vec![1]);
    assert_eq!(negative_h_hop_reach(g, 2, &[0]), vec![1, 2]);
    assert_eq!(negative_h_hop_reach(g, 2, &[1]), vec![2]);
    assert_eq!(negative_h_hop_reach(g, 2, &[2, 0]), vec![1, 2]);
    assert_eq!(negative_h_hop_reach(g, 2, &[]), Vec::<usize>::new());
}

#[test]
fn negative_reach_needs_a_negative_total() {
    // 0 -(-1)-> 1 -(+5)-> 2: vertex 2 is reached, but not by a negative walk
    let p = vec![vec![], vec![(2, 5)], vec![]];
    let ne = vec![vec![(1, -1, true)], vec![], vec![]];
    let g = BorrowedWeightedGraph { n: 3, pedges: &p, nedges: &ne };
    assert_eq!(negative_h_hop_reach(g, 3, &[0]), vec![1]);
}

#[test]
fn priced_graph_sanity_check() {
    let g = priced(2, vec![vec![(1, 3)], vec![]], vec![vec![], vec![(0, -2, true)]]);
    assert!(g.is_well_formed());
    let mut bad = g.clone();
    bad.pedges[0][0].1 = -1;
    assert!(!bad.is_well_formed());
    let mut outside = g.clone();
    outside.nedges_rev[0].push((5, -1, false));
    assert!(!outside.is_well_formed());
    let mut short = g.clone();
    short.prices.pop();
    assert!(!short.is_well_formed());
}

#[test]
fn as_borrowed_shows_both_directions() {
    let g = priced(2, vec![vec![(1, 3)], vec![]], vec![vec![], vec![(0, -2, true)]]);
    let f = g.as_borrowed();
    assert_eq!(f.n, 2);
    assert_eq!(f.pedges[0], vec![(1, 3)]);
    assert_eq!(f.nedges[1], vec![(0, -2, true)]);
    let r = g.as_borrowed_rev();
    assert_eq!(r.pedges[1], vec![(0, 3)]);
    assert_eq!(r.nedges[0], vec![(1, -2, true)]);
}

#[test]
fn apply_price_moves_every_edge() {
    let mut g = priced(2, vec![vec![(1, 3)], vec![]], vec![vec![], vec![(0, -2, true)]]);
    g.apply_price(&[1, 4]);
    assert_eq!(g.pedges[0], vec![(1, 0)]);
    assert_eq!(g.nedges[1], vec![(0, 1, true)]);
    assert_eq!(g.pedges_rev[1], vec![(0, 0)]);
    assert_eq!(g.nedges_rev[0], vec![(1, 1, true)]);
    assert_eq!(g.prices, vec![1, 4]);
    assert!(g.is_well_formed());
}

#[test]
fn unapply_price_undoes_apply_price() {
    let g0 = priced(3, vec![vec![(1, 3), (2, 7)], vec![(2, 1)], vec![]], vec![vec![], vec![], vec![(0, -4, false)]]);
    let mut g = g0.clone();
    let p = [2, 0, -1];
    g.apply_price(&p);
    assert_ne!(g.pedges, g0.pedges);
    g.unapply_price(&p);
    assert_eq!(g.pedges, g0.pedges);
    assert_eq!(g.pedges_rev, g0.pedges_rev);
    assert_eq!(g.nedges, g0.nedges);
    assert_eq!(g.nedges_rev, g0.nedges_rev);
    assert_eq!(g.prices, g0.prices);
}

#[test]
fn sandwich_price_is_zero_near_y_and_follows_x_elsewhere() {
    // x = 0, y = 2; 3 is reached from x by a negative edge but never reaches y
    let mut g = priced(4, vec![vec![(1, 2)], vec![], vec![], vec![]], vec![vec![(3, -5, false)], vec![(2, -3, false)], vec![], vec![]]);
    let p = sandwiches_to_r_remoteness(&mut g, 0, &[1], 2, 1);
    assert_eq!(p, vec![0, 0, 0, -5]);
    // every negative edge is active now, and the edge 0 -> 3 is priced to 0
    assert_eq!(g.nedges[0], vec![(3, 0, true)]);
    assert_eq!(g.nedges[1], vec![(2, -3, true)]);
    assert_eq!(g.nedges_rev[3], vec![(0, 0, true)]);
    assert_eq!(g.pedges[0], vec![(1, 2)]);
    assert_eq!(g.prices, vec![0, 0, 0, -5]);
    assert!(g.is_well_formed());
}

#[test]
fn sandwich_price_takes_the_larger_of_dx_and_minus_dy() {
    // x = 0, y = 3: 0 -(-4)-> 1 -(1)-> 4 -(2)-> 3; vertex 2 is isolated
    let mut g = priced(
        5,
        vec![vec![], vec![(4, 1)], vec![], vec![], vec![(3, 2)]],
        vec![vec![(1, -4, true)], vec![], vec![], vec![], vec![]],
    );
    let p = sandwiches_to_r_remoteness(&mut g, 0, &[1], 3, 1);
    // dx = [0, -4, -, -1, -3], dy = [-1, 3, -, 0, 2]
    assert_eq!(p, vec![0, -3, 0, 0, -2]);
    assert_eq!(g.pedges[1], vec![(4, 0)]);
    assert_eq!(g.pedges[4], vec![(3, 0)]);
    assert_eq!(g.nedges[0], vec![(1, -1, true)]);
}

#[test]
fn outcome_carries_a_sandwich_or_an_independent_set() {
    let s = Outcome::Sandwich((0, vec![1, 2], 3));
    let i = Outcome::IndependentSet(vec![4]);
    assert!(matches!(s, Outcome::Sandwich((0, _, 3))));
    assert!(matches!(i, Outcome::IndependentSet(_)));
}

#[test]
fn pricing_shifts_distances_by_the_price_difference() {
    let g0 = priced(3, vec![vec![(1, 4), (2, 9)], vec![(2, 3)], vec![]], vec![vec![], vec![], vec![]]);
    let p = [1, 3, 0];
    let mut g1 = g0.clone();
    g1.apply_price(&p);
    let before = dijkstra(g0.as_borrowed(), vec![Some(0), None, None]);
    let after = dijkstra(g1.as_borrowed(), vec![Some(0), None, None]);
    assert_eq!(before, vec![Some(0), Some(4), Some(7)]);
    for v in 0..3 {
        assert_eq!(after[v], before[v].map(|d| d + p[0] - p[v]));
    }
}

#[test]
fn applying_two_prices_is_applying_their_sum() {
    let g0 = priced(3, vec![vec![(1, 3), (2, 7)], vec![(2, 1)], vec![]], vec![vec![], vec![], vec![(0, -4, true)]]);
    let p = [2, 0, -1];
    let q = [-1, 1, 3];
    let pq: Vec<i64> = (0..3).map(|i| p[i] + q[i]).collect();
    let mut g1 = g0.clone();
    g1.apply_price(&p);
    g1.apply_price(&q);
    let mut g2 = g0.clone();
    g2.apply_price(&pq);
    assert_eq!(g1.pedges, g2.pedges);
    assert_eq!(g1.pedges_rev, g2.pedges_rev);
    assert_eq!(g1.nedges, g2.nedges);
    assert_eq!(g1.nedges_rev, g2.nedges_rev);
    assert_eq!(g1.prices, g2.prices);
}

#[test]
fn pricing_keeps_the_reversed_lists_mirrored() {
    let mut g = priced(3, vec![vec![(1, 3), (2, 7)], vec![(2, 1)], vec![]], vec![vec![], vec![], vec![(0, -4, true)]]);
    g.apply_price(&[2, 0, -1]);
    for u in 0..3 {
        for &(v, w) in &g.pedges[u] {
            assert!(g.pedges_rev[v].contains(&(u, w)));
        }
        for &(v, w, t) in &g.nedges[u] {
            assert!(g.nedges_rev[v].contains(&(u, w, t)));
        }
    }
}

#[test]
fn negative_reach_is_a_union_and_grows_with_h() {
    let p = vec![vec![], vec![(2, 5)], vec![], vec![]];
    let ne = vec![vec![(1, -1, true)], vec![], vec![(3, -2, true)], vec![(2, -1, true)]];
    let g = BorrowedWeightedGraph { n: 4, pedges: &p, nedges: &ne };
    for h in 0..4 {
        let all = negative_h_hop_reach(g, h, &[0, 2]);
        let mut union = negative_h_hop_reach(g, h, &[0]);
        union.extend(negative_h_hop_reach(g, h, &[2]));
        union.sort();
        union.dedup();
        assert_eq!(all, union);
        let more = negative_h_hop_reach(g, h + 1, &[0, 2]);
        assert!(all.iter().all(|v| more.contains(v)));
    }
}

#[test]
fn after_the_sandwich_price_the_reach_of_u_was_between_x_and_y() {
    // x = 0, U = {1}, y = 3, beta = 2
    let pe = vec![vec![], vec![(2, 1), (4, 1)], vec![], vec![], vec![]];
    let ne = vec![vec![(1, -3, true)], vec![], vec![(3, -1, true)], vec![], vec![(0, -1, true)]];
    let g0 = priced(5, pe, ne);
    let mut g = g0.clone();
    let beta = 2;
    let _p = sandwiches_to_r_remoteness(&mut g, 0, &[1], 3, beta);
    let reach = negative_h_hop_reach(g.as_borrowed(), beta - 1, &[1]);
    let mut from_x = vec![None; 5];
    from_x[0] = Some(0);
    let dx = bellman_ford_dijkstra_up_to_h_hops(g0.as_borrowed(), beta, from_x);
    let mut to_y = vec![None; 5];
    to_y[3] = Some(0);
    let dy = bellman_ford_dijkstra_up_to_h_hops(g0.as_borrowed_rev(), beta, to_y);
    for &v in &reach {
        assert!(dx[v].unwrap() + dy[v].unwrap() < 0);
    }
}

#[test]
fn apply_price_accepts_a_negative_edge_that_the_price_fixes() {
    let mut g = priced(2, vec![vec![(1, -2)], vec![]], vec![vec![], vec![]]);
    assert!(!g.is_well_formed());
    g.apply_price(&[0, -3]);
    assert_eq!(g.pedges[0], vec![(1, 1)]);
    assert_eq!(g.pedges_rev[1], vec![(0, 1)]);
    assert_eq!(g.prices, vec![0, -3]);
    assert!(g.is_well_formed());
}

#[test]
fn applying_two_prices_of_any_length_is_applying_their_sum() {
    let g0 = priced(3, vec![vec![(1, 3), (2, 7)], vec![(2, 1)], vec![]], vec![vec![], vec![(0, -2, true)], vec![(0, -4, false)]]);
    let p = [2, 0, -1];
    let q = [-1, 1, 3, 40, -7];
    let pq = [1, 1, 2, 99];
    let mut g1 = g0.clone();
    g1.apply_price(&p);
    g1.apply_price(&q);
    let mut g2 = g0.clone();
    g2.apply_price(&pq);
    assert_eq!(g1.pedges, g2.pedges);
    assert_eq!(g1.pedges_rev, g2.pedges_rev);
    assert_eq!(g1.nedges, g2.nedges);
    assert_eq!(g1.nedges_rev, g2.nedges_rev);
    assert_eq!(g1.prices, g2.prices);
    assert_eq!(g1.prices, vec![1, 1, 2]);
}

#[test]
fn pricing_keeps_every_copy_of_an_edge_mirrored() {
    let mut g = priced(
        3,
        vec![vec![(1, 3), (1, 3), (2, 7)], vec![(2, 1)], vec![]],
        vec![vec![(2, -1, true), (2, -1, true)], vec![], vec![(0, -4, false)]],
    );
    g.apply_price(&[2, 0, -1]);
    for u in 0..3 {
        for &(t, w) in &g.pedges[u] {
            let fwd = g.pedges[u].iter().filter(|&&e| e == (t, w)).count();
            let back = g.pedges_rev[t].iter().filter(|&&e| e == (u, w)).count();
            assert_eq!(fwd, back);
        }
        for &(t, w, f) in &g.nedges[u] {
            let fwd = g.nedges[u].iter().filter(|&&e| e == (t, w, f)).count();
            let back = g.nedges_rev[t].iter().filter(|&&e| e == (u, w, f)).count();
            assert_eq!(fwd, back);
        }
    }
    assert_eq!(g.pedges[0], vec![(1, 5), (1, 5), (2, 10)]);
    assert_eq!(g.pedges_rev[1], vec![(0, 5), (0, 5)]);
    assert_eq!(g.nedges_rev[2], vec![(0, 2, true), (0, 2, true)]);
}

#[test]
fn sandwich_price_is_zero_where_a_negative_walk_reaches_y() {
    // x = 0, y = 3, beta = 2
    let pe = vec![vec![], vec![(2, 1), (4, 1)], vec![], vec![], vec![]];
    let ne = vec![vec![(1, -3, true)], vec![], vec![(3, -1, true)], vec![], vec![(0, -1, true)]];
    let g0 = priced(5, pe, ne);
    let mut g = g0.clone();
    let beta = 2;
    let p = sandwiches_to_r_remoteness(&mut g, 0, &[1], 3, beta);
    let mut zeros = 0;
    for v in 0..5 {
        if negative_h_hop_reach(g0.as_borrowed(), beta, &[v]).contains(&3) {
            assert_eq!(p[v], 0);
            zeros += 1;
        }
    }
    assert!(zeros >= 2);
}
