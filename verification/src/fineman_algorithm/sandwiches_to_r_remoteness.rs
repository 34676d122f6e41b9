//! The price that turns a negative sandwich `(x, U, y)` into a remote set of
//! negative edges.
use vstd::prelude::*;
use crate::fineman_algorithm::{
    PricedGraph, bellman_ford_dijkstra_up_to_h_hops, fits_n, fits_p, keeps_nonneg, delta,
};
use crate::paths::{
    GraphModel, Step, abs, hops, ints, lemma_max_abs, lemma_max_abs_le, max_abs, negated, somes, within,
};
use crate::standard_algorithms::filled;

verus! {

/// The price of a vertex from its `beta`-hop distance from `x` (`dx`) and to `y`
/// (`dy`, `None` meaning unreachable, i.e. `+infinity`):
/// `min(0, max(dx, -dy))`.
pub open spec fn sandwich_price(dx: Option<i64>, dy: Option<i64>) -> int {
    match dx {
        None => 0,
        Some(a) => match dy {
            None => if a < 0 {
                a as int
            } else {
                0
            },
            Some(b) => {
                let m = if a > -b {
                    a as int
                } else {
                    -b
                };
                if m < 0 {
                    m
                } else {
                    0
                }
            },
        },
    }
}

/// Every edge `u -> v` of `f` is stored reversed in `r` (at `v`, pointing to `u`,
/// same weight), and every reversed edge of `r` comes from an edge of `f`.
pub open spec fn mirrored(f: Seq<Seq<(usize, i64)>>, r: Seq<Seq<(usize, i64)>>) -> bool {
    &&& forall|u: int, j: int|
        0 <= u < f.len() && 0 <= j < f[u].len() ==> holds_p(r, (#[trigger] f[u][j]).0 as int, u, f[u][j].1)
    &&& forall|a: int, k: int|
        0 <= a < r.len() && 0 <= k < r[a].len() ==> holds_p(f, (#[trigger] r[a][k]).0 as int, a, r[a][k].1)
}

/// Row `v` of `r` holds an edge to `u` of weight `w`.
pub open spec fn holds_p(r: Seq<Seq<(usize, i64)>>, v: int, u: int, w: i64) -> bool {
    exists|k: int| 0 <= k < r[v].len() && (#[trigger] r[v][k]).0 as int == u && r[v][k].1 == w
}

/// Row `v` of `r` holds an edge to `u` of weight `w` and flag `t`.
pub open spec fn holds_n(r: Seq<Seq<(usize, i64, bool)>>, v: int, u: int, w: i64, t: bool) -> bool {
    exists|k: int| 0 <= k < r[v].len() && (#[trigger] r[v][k]).0 as int == u && r[v][k].1 == w && r[v][k].2 == t
}

/// The labels "distance 0 at `s`, no label elsewhere".
pub open spec fn single_start(n: nat, s: int) -> Seq<Option<i64>> {
    Seq::new(
        n,
        |v: int|
            if v == s {
                Some(0i64)
            } else {
                None
            },
    )
}

/// Bound on the distances computed with `beta` negative hops.
pub open spec fn hop_budget(g: GraphModel, beta: nat) -> int {
    ((beta + 1) * ((g.n + 1) * g.weight_bound())) as int
}

/// Sets the flag of every negative edge.
fn activate_all(rows: &mut Vec<Vec<(usize, i64, bool)>>)
    ensures
        final(rows)@.len() == old(rows)@.len(),
        forall|u: int| 0 <= u < old(rows)@.len() ==> (#[trigger] final(rows)@[u])@ == old(rows)@[u]@.map_values(
            |e: (usize, i64, bool)| (e.0, e.1, true),
        ),
{
    let ghost orig = rows@;
    let mut u: usize = 0;
    while u < rows.len()
        invariant
            u <= rows@.len(),
            rows@.len() == orig.len(),
            forall|x: int| u <= x < rows@.len() ==> #[trigger] rows@[x] == orig[x],
            forall|x: int|
                0 <= x < u ==> (#[trigger] rows@[x])@ == orig[x]@.map_values(
                    |e: (usize, i64, bool)| (e.0, e.1, true),
                ),
        decreases orig.len() - u,
    {
        let len = rows[u].len();
        let ghost before = rows@;
        let mut j: usize = 0;
        while j < len
            invariant
                u < rows@.len(),
                rows@.len() == orig.len(),
                before[u as int] == orig[u as int],
                len == orig[u as int]@.len(),
                j <= len,
                forall|x: int| 0 <= x < rows@.len() && x != u ==> #[trigger] rows@[x] == before[x],
                rows@[u as int]@.len() == len,
                forall|k: int| j <= k < len ==> #[trigger] rows@[u as int]@[k] == orig[u as int]@[k],
                forall|k: int|
                    0 <= k < j ==> #[trigger] rows@[u as int]@[k] == (
                        orig[u as int]@[k].0,
                        orig[u as int]@[k].1,
                        true,
                    ),
            decreases len - j,
        {
            let (v, w, _) = rows[u][j];
            rows[u].set(j, (v, w, true));
            j += 1;
        }
        proof {
            assert(rows@[u as int]@ =~= orig[u as int]@.map_values(
                |e: (usize, i64, bool)| (e.0, e.1, true),
            ));
        }
        u += 1;
    }
}

/// `sandwich_price` on concrete labels.
fn price_of(dx: Option<i64>, dy: Option<i64>) -> (p: i64)
    requires
        dy matches Some(b) ==> b > i64::MIN,
    ensures
        p as int == sandwich_price(dx, dy),
{
    match dx {
        None => 0,
        Some(a) => match dy {
            None => if a < 0 {
                a
            } else {
                0
            },
            Some(b) => {
                let m = if a > -b {
                    a
                } else {
                    -b
                };
                if m < 0 {
                    m
                } else {
                    0
                }
            },
        },
    }
}

/// The sandwich price keeps every non-negative edge (both directions) non-negative
/// when `dx` and `dy` cannot be improved along non-negative edges of the forward
/// and the reversed graph and the two directions mirror each other.
pub proof fn lemma_sandwich_price_legal(
    fwd: GraphModel,
    rev: GraphModel,
    dx: Seq<Option<i64>>,
    dy: Seq<Option<i64>>,
    p: Seq<i64>,
)
    requires
        fwd.wf(),
        rev.wf(),
        rev.n == fwd.n,
        fwd.pedges_nonneg(),
        rev.pedges_nonneg(),
        dx.len() == fwd.n,
        dy.len() == fwd.n,
        p.len() == fwd.n,
        fwd.closed_p(dx),
        rev.closed_p(dy),
        mirrored(fwd.pedges, rev.pedges),
        forall|v: int| 0 <= v < fwd.n ==> #[trigger] p[v] as int == sandwich_price(dx[v], dy[v]),
    ensures
        keeps_nonneg(fwd.pedges, p, false),
        keeps_nonneg(rev.pedges, p, true),
{
    assert forall|u: int, j: int| 0 <= u < fwd.pedges.len() && 0 <= j < fwd.pedges[u].len() implies (#[trigger] fwd.pedges[u][j]).1
        + delta(p, false, u, fwd.pedges[u][j].0 as int) >= 0 by {
        let v = fwd.pedges[u][j].0 as int;
        let w = fwd.pedges[u][j].1;
        assert(holds_p(rev.pedges, v, u, w));
        let k = choose|k: int| 0 <= k < rev.pedges[v].len() && (#[trigger] rev.pedges[v][k]).0 as int == u && rev.pedges[v][k].1 == w;
        assert(rev.pedges[v][k].0 == u);
        price_step(dx[u], dx[v], dy[u], dy[v], w as int);
        if dx[u] is Some {
            assert(dx[v] is Some);
        }
        if dy[v] is Some {
            assert(dy[u] is Some);
        }
    }
    assert forall|a: int, k: int| 0 <= a < rev.pedges.len() && 0 <= k < rev.pedges[a].len() implies (#[trigger] rev.pedges[a][k]).1
        + delta(p, true, a, rev.pedges[a][k].0 as int) >= 0 by {
        let b = rev.pedges[a][k].0 as int;
        let w = rev.pedges[a][k].1;
        assert(holds_p(fwd.pedges, b, a, w));
        let j = choose|j: int| 0 <= j < fwd.pedges[b].len() && (#[trigger] fwd.pedges[b][j]).0 as int == a && fwd.pedges[b][j].1 == w;
        assert(fwd.pedges[b][j].0 == a);
        price_step(dx[b], dx[a], dy[b], dy[a], w as int);
        if dx[b] is Some {
            assert(dx[a] is Some);
        }
        if dy[a] is Some {
            assert(dy[b] is Some);
        }
    }
}

/// The arithmetic heart of the legality: along an edge `u -> v` of weight `w >= 0`
/// with `dx[v] <= dx[u] + w` and `dy[u] <= dy[v] + w`, the price rises by at most `w`.
proof fn price_step(xu: Option<i64>, xv: Option<i64>, yu: Option<i64>, yv: Option<i64>, w: int)
    requires
        w >= 0,
        xu is Some ==> xv is Some && xv.unwrap() <= xu.unwrap() + w,
        yv is Some ==> yu is Some && yu.unwrap() <= yv.unwrap() + w,
    ensures
        sandwich_price(xv, yv) <= sandwich_price(xu, yu) + w,
{
}

impl PricedGraph {
    /// The reversed non-negative edges mirror the forward ones.
    pub open spec fn pedges_mirrored(&self) -> bool {
        mirrored(self.model().pedges, self.model_rev().pedges)
    }

    /// The reversed negative edges mirror the forward ones, flags included.
    pub open spec fn nedges_mirrored(&self) -> bool {
        mirrored_n(self.model().nedges, self.model_rev().nedges)
    }
}

/// For the negative sandwich `(x, U, y)`: activates every negative edge, computes
/// the `beta`-hop distances `dx` from `x` (forward graph) and `dy` to `y` (reversed
/// graph), applies the price `min(0, max(dx, -dy))` (unreachable counting as
/// infinite) and returns it.  The price never turns a non-negative edge negative,
/// and it is 0 at every vertex that reaches `y` by a negative `beta`-hop walk, as
/// the vertices of `U` do.  When the negative lists mirror each other too, `dy` is
/// the distance to `y` in the forward graph, and the walk to `y` is a forward one.
#[verifier::rlimit(50)]
pub fn sandwiches_to_r_remoteness(
    graph: &mut PricedGraph,
    x: usize,
    u: &[usize],
    y: usize,
    beta: usize,
) -> (p: Vec<i64>)
    requires
        old(graph).well_formed(),
        old(graph).pedges_mirrored(),
        x < old(graph).n,
        y < old(graph).n,
        ({
            let kx = hop_budget(old(graph).model().all_active(), beta as nat);
            let ky = hop_budget(old(graph).model_rev().all_active(), beta as nat);
            let k = if kx > ky {
                kx
            } else {
                ky
            };
            k + old(graph).model().weight_bound() + old(graph).model_rev().weight_bound() + max_abs(
                somes(old(graph).prices@),
            ) <= i64::MAX
        }),
    ensures
        final(graph).well_formed(),
        p@.len() == old(graph).n,
        exists|dx: Seq<Option<i64>>, dy: Seq<Option<i64>>|
            {
                &&& old(graph).model().all_active().is_hop_dist(
                    single_start(old(graph).n as nat, x as int),
                    dx,
                    beta as nat,
                )
                &&& old(graph).model_rev().all_active().is_hop_dist(
                    single_start(old(graph).n as nat, y as int),
                    dy,
                    beta as nat,
                )
                &&& forall|v: int|
                    0 <= v < old(graph).n ==> #[trigger] p@[v] as int == sandwich_price(dx[v], dy[v])
                &&& old(graph).nedges_mirrored() ==> is_hop_dist_to(
                    old(graph).model().all_active(),
                    y as int,
                    dy,
                    beta as nat,
                )
            },
        old(graph).model().all_active().repriced(final(graph).model(), ints(p@)),
        old(graph).model_rev().all_active().repriced(final(graph).model_rev(), negated(ints(p@))),
        final(graph).prices@.len() == old(graph).prices@.len(),
        forall|v: int|
            0 <= v < old(graph).n ==> #[trigger] final(graph).prices@[v] == old(graph).prices@[v] + p@[v],
        forall|v: int| 0 <= v < old(graph).n ==> #[trigger] p@[v] <= 0,
        forall|v: int|
            0 <= v < old(graph).n && old(graph).model_rev().all_active().in_negative_reach(
                seq![y],
                v,
                beta as nat,
            ) ==> #[trigger] p@[v] == 0,
        old(graph).nedges_mirrored() ==> forall|v: int|
            0 <= v < old(graph).n && old(graph).model().all_active().in_negative_reach(
                seq![v as usize],
                y as int,
                beta as nat,
            ) ==> #[trigger] p@[v] == 0,
{
    let n = graph.n;
    let ghost g0 = *graph;
    let ghost fwd = g0.model().all_active();
    let ghost rev = g0.model_rev().all_active();
    activate_all(&mut graph.nedges);
    activate_all(&mut graph.nedges_rev);
    proof {
        lemma_activated(g0, *graph);
    }
    let ghost kx = hop_budget(fwd, beta as nat);
    let ghost ky = hop_budget(rev, beta as nat);
    let ghost k = if kx > ky { kx } else { ky };
    let mut dis_from_x: Vec<Option<i64>> = filled(n, None);
    dis_from_x.set(x, Some(0));
    let mut dis_to_y: Vec<Option<i64>> = filled(n, None);
    dis_to_y.set(y, Some(0));
    proof {
        assert(dis_from_x@ =~= single_start(n as nat, x as int));
        assert(dis_to_y@ =~= single_start(n as nat, y as int));
        lemma_max_abs_le(dis_from_x@, 0);
        lemma_max_abs_le(dis_to_y@, 0);
        lemma_budgets(fwd, rev, beta as nat);
    }
    let dis_from_x = bellman_ford_dijkstra_up_to_h_hops(graph.as_borrowed(), beta, dis_from_x);
    let dis_to_y = bellman_ford_dijkstra_up_to_h_hops(graph.as_borrowed_rev(), beta, dis_to_y);
    let p = compute_prices(&dis_from_x, &dis_to_y, Ghost(k));
    proof {
        let dx = dis_from_x@;
        let dy = dis_to_y@;
        fwd.lemma_hop_dist_closed_p(single_start(n as nat, x as int), dx, beta as nat);
        rev.lemma_hop_dist_closed_p(single_start(n as nat, y as int), dy, beta as nat);
        lemma_sandwich_price_legal(fwd, rev, dx, dy, p@);
        lemma_zero_price_on_negative_reach(rev, single_start(n as nat, y as int), dy, p@, y, beta as nat);
        lemma_sandwich_price_fits(g0, *graph, p@, k);
    }
    graph.apply_price(p.as_slice());
    proof {
        let dx = dis_from_x@;
        let dy = dis_to_y@;
        assert(fwd.is_hop_dist(single_start(n as nat, x as int), dx, beta as nat));
        assert(rev.is_hop_dist(single_start(n as nat, y as int), dy, beta as nat));
        assert(forall|vv: int| 0 <= vv < n ==> #[trigger] p@[vv] as int == sandwich_price(dx[vv], dy[vv]));
        if g0.nedges_mirrored() {
            lemma_activated_mirrored(g0.model(), g0.model_rev());
            lemma_reversed_dist_is_dist_to(fwd, rev, y as int, dy, beta as nat);
            lemma_zero_price_to_y(fwd, dy, p@, y, beta as nat);
        }
    }
    p
}

/// Vertices that reach `y` by a negative walk get price 0.
proof fn lemma_zero_price_to_y(fwd: GraphModel, dy: Seq<Option<i64>>, p: Seq<i64>, y: usize, beta: nat)
    requires
        is_hop_dist_to(fwd, y as int, dy, beta),
        fwd.n <= usize::MAX,
        p.len() == fwd.n,
        forall|v: int| 0 <= v < fwd.n ==> (dy[v] is Some && dy[v].unwrap() < 0 ==> #[trigger] p[v] == 0),
    ensures
        forall|v: int|
            0 <= v < fwd.n && fwd.in_negative_reach(seq![v as usize], y as int, beta) ==> #[trigger] p[v] == 0,
{
    assert forall|v: int| 0 <= v < fwd.n && fwd.in_negative_reach(seq![v as usize], y as int, beta) implies #[trigger] p[v]
        == 0 by {
        let (i, q) = choose|i: int, q: Seq<Step>|
            0 <= i < seq![v as usize].len() && #[trigger] fwd.is_walk(seq![v as usize][i] as int, q) && fwd.walk_end(
                seq![v as usize][i] as int,
                q,
            ) == y as int && hops(q) <= beta && fwd.walk_weight(seq![v as usize][i] as int, q) < 0;
        assert(seq![v as usize][i] as int == v);
        assert(fwd.is_walk(v, q));
        assert(dy[v] is Some);
    }
}

/// Vertices that reach `y` by a negative walk (in the reversed graph) get price 0.
proof fn lemma_zero_price_on_negative_reach(
    rev: GraphModel,
    init: Seq<Option<i64>>,
    dy: Seq<Option<i64>>,
    p: Seq<i64>,
    y: usize,
    beta: nat,
)
    requires
        rev.wf(),
        y < rev.n,
        init == single_start(rev.n, y as int),
        rev.is_hop_dist(init, dy, beta),
        p.len() == rev.n,
        forall|v: int| 0 <= v < rev.n ==> #[trigger] p[v] <= 0,
        forall|v: int| 0 <= v < rev.n ==> (dy[v] is Some && dy[v].unwrap() < 0 ==> #[trigger] p[v] == 0),
    ensures
        forall|v: int| 0 <= v < rev.n && rev.in_negative_reach(seq![y], v, beta) ==> #[trigger] p[v] == 0,
{
    assert forall|vv: int| 0 <= vv < rev.n && rev.in_negative_reach(seq![y], vv, beta) implies #[trigger] p[vv] == 0 by {
        let (i, q) = choose|i: int, q: Seq<Step>|
            0 <= i < seq![y].len() && #[trigger] rev.is_walk(seq![y][i] as int, q) && rev.walk_end(seq![y][i] as int, q) == vv
                && hops(q) <= beta && rev.walk_weight(seq![y][i] as int, q) < 0;
        let s = y as int;
        assert(seq![y][i] == y);
        assert(init[s] == Some(0i64));
        assert(within(q, Some(beta)));
        assert(dy[vv] is Some);
    }
}

/// The sandwich price (bounded by `k`) can be applied without leaving `i64`.
proof fn lemma_sandwich_price_fits(g0: PricedGraph, g: PricedGraph, p: Seq<i64>, k: int)
    requires
        g0.well_formed(),
        g.n == g0.n,
        g.model() == g0.model().all_active(),
        g.model_rev() == g0.model_rev().all_active(),
        g.prices@ == g0.prices@,
        p.len() == g0.n,
        forall|i: int| 0 <= i < g0.n ==> -k <= #[trigger] p[i] <= 0,
        k + g0.model().weight_bound() + g0.model_rev().weight_bound() + max_abs(somes(g0.prices@)) <= i64::MAX,
    ensures
        g.price_fits(p),
{
    let n = g0.n;
    let fm = g0.model();
    let rm = g0.model_rev();
    fm.lemma_weight_bounds();
    rm.lemma_weight_bounds();
    lemma_max_abs(somes(g0.prices@));
    assert forall|a: int, j: int| 0 <= a < g.model().pedges.len() && 0 <= j < g.model().pedges[a].len() implies {
        let d = delta(p, false, a, (#[trigger] g.model().pedges[a][j]).0 as int);
        &&& i64::MIN <= d <= i64::MAX
        &&& i64::MIN <= g.model().pedges[a][j].1 + d <= i64::MAX
    } by {
        assert(fm.pedges[a][j].0 < n);
        assert(abs(fm.pedges[a][j].1 as int) <= fm.pweight_bound());
    }
    assert forall|a: int, j: int| 0 <= a < g.model().nedges.len() && 0 <= j < g.model().nedges[a].len() implies {
        let d = delta(p, false, a, (#[trigger] g.model().nedges[a][j]).0 as int);
        &&& i64::MIN <= d <= i64::MAX
        &&& i64::MIN <= g.model().nedges[a][j].1 + d <= i64::MAX
    } by {
        assert(g.model().nedges[a][j].0 == fm.nedges[a][j].0);
        assert(g.model().nedges[a][j].1 == fm.nedges[a][j].1);
        assert(fm.nedges[a][j].0 < n);
        assert(abs(fm.nedges[a][j].1 as int) <= fm.weight_bound());
    }
    assert forall|a: int, j: int| 0 <= a < g.model_rev().pedges.len() && 0 <= j < g.model_rev().pedges[a].len() implies {
        let d = delta(p, true, a, (#[trigger] g.model_rev().pedges[a][j]).0 as int);
        &&& i64::MIN <= d <= i64::MAX
        &&& i64::MIN <= g.model_rev().pedges[a][j].1 + d <= i64::MAX
    } by {
        assert(rm.pedges[a][j].0 < n);
        assert(abs(rm.pedges[a][j].1 as int) <= rm.pweight_bound());
    }
    assert forall|a: int, j: int| 0 <= a < g.model_rev().nedges.len() && 0 <= j < g.model_rev().nedges[a].len() implies {
        let d = delta(p, true, a, (#[trigger] g.model_rev().nedges[a][j]).0 as int);
        &&& i64::MIN <= d <= i64::MAX
        &&& i64::MIN <= g.model_rev().nedges[a][j].1 + d <= i64::MAX
    } by {
        assert(g.model_rev().nedges[a][j].0 == rm.nedges[a][j].0);
        assert(g.model_rev().nedges[a][j].1 == rm.nedges[a][j].1);
        assert(rm.nedges[a][j].0 < n);
        assert(abs(rm.nedges[a][j].1 as int) <= rm.weight_bound());
    }
    assert forall|a: int| 0 <= a < g.prices@.len() implies i64::MIN <= #[trigger] g.prices@[a] + p[a] <= i64::MAX by {
        assert(somes(g0.prices@)[a] == Some(g0.prices@[a]));
    }
}

/// After activating every negative edge, the views are the activated views and the
/// graph is still well formed.
proof fn lemma_activated(g0: PricedGraph, g: PricedGraph)
    requires
        g0.well_formed(),
        g.n == g0.n,
        g.pedges == g0.pedges,
        g.pedges_rev == g0.pedges_rev,
        g.prices == g0.prices,
        g.nedges@.len() == g0.nedges@.len(),
        g.nedges_rev@.len() == g0.nedges_rev@.len(),
        forall|u: int| 0 <= u < g0.nedges@.len() ==> (#[trigger] g.nedges@[u])@ == g0.nedges@[u]@.map_values(
            |e: (usize, i64, bool)| (e.0, e.1, true),
        ),
        forall|u: int| 0 <= u < g0.nedges_rev@.len() ==> (#[trigger] g.nedges_rev@[u])@ == g0.nedges_rev@[u]@.map_values(
            |e: (usize, i64, bool)| (e.0, e.1, true),
        ),
    ensures
        g.model() == g0.model().all_active(),
        g.model_rev() == g0.model_rev().all_active(),
        g.well_formed(),
{
    let fwd = g0.model().all_active();
    let rev = g0.model_rev().all_active();
    assert(g.model().nedges =~= fwd.nedges);
    assert(g.model_rev().nedges =~= rev.nedges);
    assert(g.model() == fwd);
    assert(g.model_rev() == rev);
    assert forall|a: int, j: int| 0 <= a < fwd.n && 0 <= j < fwd.nedges[a].len() implies #[trigger] fwd.nedges[a][j].0
        < fwd.n by {
        assert(fwd.nedges[a][j].0 == g0.model().nedges[a][j].0);
    }
    assert forall|a: int, j: int| 0 <= a < rev.n && 0 <= j < rev.nedges[a].len() implies #[trigger] rev.nedges[a][j].0
        < rev.n by {
        assert(rev.nedges[a][j].0 == g0.model_rev().nedges[a][j].0);
    }
}

/// The hop budgets are non-negative.
proof fn lemma_budgets(fwd: GraphModel, rev: GraphModel, beta: nat)
    ensures
        hop_budget(fwd, beta) >= 0,
        hop_budget(rev, beta) >= 0,
{
    let a = fwd.weight_bound() as int;
    let b = rev.weight_bound() as int;
    assert((beta + 1) * ((fwd.n + 1) * a) >= 0) by (nonlinear_arith)
        requires
            a >= 0,
    ;
    assert((beta + 1) * ((rev.n + 1) * b) >= 0) by (nonlinear_arith)
        requires
            b >= 0,
    ;
}

/// The sandwich price lies in `-k..=0` when the distances are bounded by `k`.
proof fn lemma_price_range(dx: Option<i64>, dy: Option<i64>, k: int)
    requires
        dx is Some ==> abs(dx.unwrap() as int) <= k,
        dy is Some ==> abs(dy.unwrap() as int) <= k,
        k >= 0,
    ensures
        -k <= sandwich_price(dx, dy) <= 0,
        dy is Some && dy.unwrap() < 0 ==> sandwich_price(dx, dy) == 0,
{
}

/// The sandwich price of every vertex.
fn compute_prices(dis_from_x: &Vec<Option<i64>>, dis_to_y: &Vec<Option<i64>>, Ghost(k): Ghost<int>) -> (p: Vec<i64>)
    requires
        dis_from_x@.len() == dis_to_y@.len(),
        max_abs(dis_from_x@) <= k,
        max_abs(dis_to_y@) <= k,
        k <= i64::MAX,
        k >= 0,
    ensures
        p@.len() == dis_from_x@.len(),
        forall|i: int| 0 <= i < p@.len() ==> #[trigger] p@[i] as int == sandwich_price(dis_from_x@[i], dis_to_y@[i]),
        forall|i: int| 0 <= i < p@.len() ==> -k <= #[trigger] p@[i] <= 0,
        forall|i: int|
            0 <= i < p@.len() ==> (dis_to_y@[i] is Some && dis_to_y@[i].unwrap() < 0 ==> #[trigger] p@[i] == 0),
{
    proof {
        lemma_max_abs(dis_from_x@);
        lemma_max_abs(dis_to_y@);
    }
    let n = dis_from_x.len();
    let mut p: Vec<i64> = Vec::new();
    let mut v: usize = 0;
    while v < n
        invariant
            v <= n,
            n == dis_from_x@.len(),
            dis_to_y@.len() == n,
            k <= i64::MAX,
            k >= 0,
            forall|i: int| 0 <= i < n && (#[trigger] dis_from_x@[i]) is Some ==> abs(dis_from_x@[i].unwrap() as int) <= k,
            forall|i: int| 0 <= i < n && (#[trigger] dis_to_y@[i]) is Some ==> abs(dis_to_y@[i].unwrap() as int) <= k,
            p@.len() == v,
            forall|i: int| 0 <= i < v ==> #[trigger] p@[i] as int == sandwich_price(dis_from_x@[i], dis_to_y@[i]),
            forall|i: int| 0 <= i < v ==> -k <= #[trigger] p@[i] <= 0,
            forall|i: int|
                0 <= i < v ==> (dis_to_y@[i] is Some && dis_to_y@[i].unwrap() < 0 ==> #[trigger] p@[i] == 0),
        decreases n - v,
    {
        proof {
            if dis_from_x@[v as int] is Some {
                assert(abs(dis_from_x@[v as int].unwrap() as int) <= k);
            }
            if dis_to_y@[v as int] is Some {
                assert(abs(dis_to_y@[v as int].unwrap() as int) <= k);
            }
        }
        let q = price_of(dis_from_x[v], dis_to_y[v]);
        proof {
            lemma_price_range(dis_from_x@[v as int], dis_to_y@[v as int], k);
        }
        p.push(q);
        v += 1;
    }
    p
}

/// The remoteness law of the sandwich price.  Let `(x, U, y)` be a negative
/// sandwich of `fwd` (the graph with every negative edge active): `x` reaches every
/// `u` of `U`, and `u` reaches `y`, by a negative walk with at most one negative
/// edge.  Let `dx` be the `beta`-hop distances from `x` and `dy` those to `y`, `p`
/// the sandwich price they give, and `new` the graph repriced by `p`.  Then every
/// vertex `v` that `U` reaches in `new` by a negative walk with at most `beta - 1`
/// negative edges was `beta`-between `x` and `y` before the price:
/// `dist^beta(x -> v) + dist^beta(v -> y) < 0`.
pub proof fn lemma_sandwich_price_remote(
    fwd: GraphModel,
    new: GraphModel,
    x: usize,
    us: Seq<usize>,
    y: usize,
    beta: nat,
    dx: Seq<Option<i64>>,
    dy: Seq<Option<i64>>,
    p: Seq<i64>,
    v: int,
)
    requires
        fwd.wf(),
        x < fwd.n,
        y < fwd.n,
        beta >= 1,
        fwd.is_hop_dist(single_start(fwd.n, x as int), dx, beta),
        is_hop_dist_to(fwd, y as int, dy, beta),
        p.len() == fwd.n,
        forall|w: int| 0 <= w < fwd.n ==> #[trigger] p[w] as int == sandwich_price(dx[w], dy[w]),
        forall|i: int|
            0 <= i < us.len() ==> #[trigger] us[i] < fwd.n && fwd.in_negative_reach(seq![x], us[i] as int, 1)
                && fwd.in_negative_reach(seq![us[i]], y as int, 1),
        fwd.repriced(new, ints(p)),
        new.in_negative_reach(us, v, (beta - 1) as nat),
    ensures
        dx[v] is Some,
        dy[v] is Some,
        dx[v].unwrap() + dy[v].unwrap() < 0,
{
    let n = fwd.n;
    let q_p = ints(p);
    let (i, q) = choose|i: int, q: Seq<Step>|
        0 <= i < us.len() && #[trigger] new.is_walk(us[i] as int, q) && new.walk_end(us[i] as int, q) == v
            && hops(q) <= (beta - 1) as nat && new.walk_weight(us[i] as int, q) < 0;
    let u = us[i] as int;
    assert(us[i] < n && fwd.in_negative_reach(seq![x], u, 1) && fwd.in_negative_reach(seq![us[i]], y as int, 1));
    fwd.lemma_reprice_walk_back(new, q_p, u, q);
    // x reaches u by a negative walk with at most one hop
    let (k1, pw) = choose|k: int, r: Seq<Step>|
        0 <= k < seq![x].len() && #[trigger] fwd.is_walk(seq![x][k] as int, r) && fwd.walk_end(seq![x][k] as int, r)
            == u && hops(r) <= 1 && fwd.walk_weight(seq![x][k] as int, r) < 0;
    assert(seq![x][k1] == x);
    // u reaches y by a negative walk with at most one hop
    let (k2, rw) = choose|k: int, r: Seq<Step>|
        0 <= k < seq![us[i]].len() && #[trigger] fwd.is_walk(seq![us[i]][k] as int, r) && fwd.walk_end(
            seq![us[i]][k] as int,
            r,
        ) == y as int && hops(r) <= 1 && fwd.walk_weight(seq![us[i]][k] as int, r) < 0;
    assert(seq![us[i]][k2] == us[i]);
    assert(fwd.is_walk(u, rw));
    let ix = single_start(n, x as int);
    assert(ix[x as int] == Some(0i64));
    assert(within(pw, Some(beta)));
    assert(fwd.is_walk(x as int, pw) && ix[x as int] is Some);
    assert(dx[u] is Some && dx[u].unwrap() < 0);
    assert(dy[u] is Some && dy[u].unwrap() < 0);
    assert(p[u] == 0);
    assert(q_p[u] == 0);
    // x reaches v through u
    fwd.lemma_walk_concat(x as int, pw, q);
    let r = pw + q;
    assert(within(r, Some(beta)));
    assert(fwd.is_walk(x as int, r) && ix[x as int] is Some);
    assert(q_p[v] == p[v]);
    assert(dx[v] is Some && dx[v].unwrap() < p[v]);
}

/// As `mirrored`, for flagged edges: the reversed copy carries the same weight and
/// the same flag.
pub open spec fn mirrored_n(f: Seq<Seq<(usize, i64, bool)>>, r: Seq<Seq<(usize, i64, bool)>>) -> bool {
    &&& forall|u: int, j: int|
        0 <= u < f.len() && 0 <= j < f[u].len() ==> holds_n(r, (#[trigger] f[u][j]).0 as int, u, f[u][j].1, f[u][j].2)
    &&& forall|a: int, k: int|
        0 <= a < r.len() && 0 <= k < r[a].len() ==> holds_n(f, (#[trigger] r[a][k]).0 as int, a, r[a][k].1, r[a][k].2)
}

/// Repricing keeps the forward and the reversed lists mirrored: the two copies of
/// an edge get the same new weight.
pub proof fn lemma_reprice_keeps_mirrored(f: GraphModel, r: GraphModel, f2: GraphModel, r2: GraphModel, q: Seq<int>)
    requires
        f.wf(),
        r.wf(),
        r.n == f.n,
        q.len() >= f.n,
        f.repriced(f2, q),
        r.repriced(r2, negated(q)),
        mirrored(f.pedges, r.pedges),
        mirrored_n(f.nedges, r.nedges),
    ensures
        mirrored(f2.pedges, r2.pedges),
        mirrored_n(f2.nedges, r2.nedges),
{
    let nq = negated(q);
    assert forall|u: int, j: int| 0 <= u < f2.pedges.len() && 0 <= j < f2.pedges[u].len() implies holds_p(
        r2.pedges,
        (#[trigger] f2.pedges[u][j]).0 as int,
        u,
        f2.pedges[u][j].1,
    ) by {
        let v = f.pedges[u][j].0 as int;
        assert(f2.pedges[u][j].0 as int == v);
        assert(holds_p(r.pedges, v, u, f.pedges[u][j].1));
        let k = choose|k: int| 0 <= k < r.pedges[v].len() && (#[trigger] r.pedges[v][k]).0 as int == u && r.pedges[v][k].1 == f.pedges[u][j].1;
        assert(r2.pedges[v][k].0 == r.pedges[v][k].0);
        assert(nq[v] == -q[v] && nq[u] == -q[u]);
        assert(r2.pedges[v][k].1 == f2.pedges[u][j].1);
    }
    assert forall|a: int, k: int| 0 <= a < r2.pedges.len() && 0 <= k < r2.pedges[a].len() implies holds_p(
        f2.pedges,
        (#[trigger] r2.pedges[a][k]).0 as int,
        a,
        r2.pedges[a][k].1,
    ) by {
        let b = r.pedges[a][k].0 as int;
        assert(r2.pedges[a][k].0 as int == b);
        assert(holds_p(f.pedges, b, a, r.pedges[a][k].1));
        let j = choose|j: int| 0 <= j < f.pedges[b].len() && (#[trigger] f.pedges[b][j]).0 as int == a && f.pedges[b][j].1 == r.pedges[a][k].1;
        assert(f2.pedges[b][j].0 == f.pedges[b][j].0);
        assert(nq[a] == -q[a] && nq[b] == -q[b]);
        assert(f2.pedges[b][j].1 == r2.pedges[a][k].1);
    }
    assert forall|u: int, j: int| 0 <= u < f2.nedges.len() && 0 <= j < f2.nedges[u].len() implies holds_n(
        r2.nedges,
        (#[trigger] f2.nedges[u][j]).0 as int,
        u,
        f2.nedges[u][j].1,
        f2.nedges[u][j].2,
    ) by {
        let v = f.nedges[u][j].0 as int;
        assert(f2.nedges[u][j].0 as int == v);
        assert(holds_n(r.nedges, v, u, f.nedges[u][j].1, f.nedges[u][j].2));
        let k = choose|k: int|
            0 <= k < r.nedges[v].len() && (#[trigger] r.nedges[v][k]).0 as int == u && r.nedges[v][k].1 == f.nedges[u][j].1
                && r.nedges[v][k].2 == f.nedges[u][j].2;
        assert(r2.nedges[v][k].0 == r.nedges[v][k].0);
        assert(nq[v] == -q[v] && nq[u] == -q[u]);
        assert(r2.nedges[v][k].1 == f2.nedges[u][j].1);
    }
    assert forall|a: int, k: int| 0 <= a < r2.nedges.len() && 0 <= k < r2.nedges[a].len() implies holds_n(
        f2.nedges,
        (#[trigger] r2.nedges[a][k]).0 as int,
        a,
        r2.nedges[a][k].1,
        r2.nedges[a][k].2,
    ) by {
        let b = r.nedges[a][k].0 as int;
        assert(r2.nedges[a][k].0 as int == b);
        assert(holds_n(f.nedges, b, a, r.nedges[a][k].1, r.nedges[a][k].2));
        let j = choose|j: int|
            0 <= j < f.nedges[b].len() && (#[trigger] f.nedges[b][j]).0 as int == a && f.nedges[b][j].1 == r.nedges[a][k].1
                && f.nedges[b][j].2 == r.nedges[a][k].2;
        assert(f2.nedges[b][j].0 == f.nedges[b][j].0);
        assert(nq[a] == -q[a] && nq[b] == -q[b]);
        assert(f2.nedges[b][j].1 == r2.nedges[a][k].1);
    }
}

/// How many times `row` holds an edge to `v` of weight `w`.
pub open spec fn count_edge(row: Seq<(usize, i64)>, v: int, w: int) -> nat
    decreases row.len(),
{
    if row.len() == 0 {
        0
    } else {
        count_edge(row.drop_last(), v, w) + if row.last().0 as int == v && row.last().1 as int == w {
            1nat
        } else {
            0nat
        }
    }
}

/// How many times `row` holds an edge to `v` of weight `w` and flag `t`.
pub open spec fn count_edge_n(row: Seq<(usize, i64, bool)>, v: int, w: int, t: bool) -> nat
    decreases row.len(),
{
    if row.len() == 0 {
        0
    } else {
        count_edge_n(row.drop_last(), v, w, t) + if row.last().0 as int == v && row.last().1 as int == w
            && row.last().2 == t {
            1nat
        } else {
            0nat
        }
    }
}

/// `r` stores every edge of `f` reversed, copy for copy: row `v` of `r` holds the
/// edge to `u` of weight `w` exactly as often as row `u` of `f` holds the edge to `v`
/// of weight `w`.
pub open spec fn mirrored_counts(f: Seq<Seq<(usize, i64)>>, r: Seq<Seq<(usize, i64)>>) -> bool {
    &&& f.len() == r.len()
    &&& forall|u: int, v: int, w: int|
        #![trigger count_edge(f[u], v, w)]
        #![trigger count_edge(r[v], u, w)]
        0 <= u < f.len() && 0 <= v < f.len() ==> count_edge(f[u], v, w) == count_edge(r[v], u, w)
}

/// As `mirrored_counts`, for flagged edges: the copies agree in weight and flag.
pub open spec fn mirrored_counts_n(f: Seq<Seq<(usize, i64, bool)>>, r: Seq<Seq<(usize, i64, bool)>>) -> bool {
    &&& f.len() == r.len()
    &&& forall|u: int, v: int, w: int, t: bool|
        #![trigger count_edge_n(f[u], v, w, t)]
        #![trigger count_edge_n(r[v], u, w, t)]
        0 <= u < f.len() && 0 <= v < f.len() ==> count_edge_n(f[u], v, w, t) == count_edge_n(r[v], u, w, t)
}

/// Shifting the weight of every edge of a row to `v` by `s` shifts the count of
/// its edges to `v` along.
proof fn lemma_count_shift(row: Seq<(usize, i64)>, row2: Seq<(usize, i64)>, v: int, w: int, s: int)
    requires
        row2.len() == row.len(),
        forall|j: int| 0 <= j < row.len() ==> (#[trigger] row2[j]).0 == row[j].0,
        forall|j: int| 0 <= j < row.len() && row[j].0 as int == v ==> (#[trigger] row2[j]).1 == row[j].1 + s,
    ensures
        count_edge(row2, v, w) == count_edge(row, v, w - s),
    decreases row.len(),
{
    if row.len() > 0 {
        let l = row.len() - 1;
        assert(row2[l].0 == row[l].0);
        lemma_count_shift(row.drop_last(), row2.drop_last(), v, w, s);
    }
}

/// As `lemma_count_shift`, for flagged edges whose flags stay.
proof fn lemma_count_shift_n(row: Seq<(usize, i64, bool)>, row2: Seq<(usize, i64, bool)>, v: int, w: int, t: bool, s: int)
    requires
        row2.len() == row.len(),
        forall|j: int| 0 <= j < row.len() ==> (#[trigger] row2[j]).0 == row[j].0 && row2[j].2 == row[j].2,
        forall|j: int| 0 <= j < row.len() && row[j].0 as int == v ==> (#[trigger] row2[j]).1 == row[j].1 + s,
    ensures
        count_edge_n(row2, v, w, t) == count_edge_n(row, v, w - s, t),
    decreases row.len(),
{
    if row.len() > 0 {
        let l = row.len() - 1;
        assert(row2[l].0 == row[l].0);
        lemma_count_shift_n(row.drop_last(), row2.drop_last(), v, w, t, s);
    }
}

/// Repricing keeps the forward and the reversed lists mirrored copy for copy: the
/// two copies of every edge get the same new weight, so each edge is still stored
/// reversed exactly as often as it is stored forward.
pub proof fn lemma_reprice_keeps_mirror_counts(f: GraphModel, r: GraphModel, f2: GraphModel, r2: GraphModel, q: Seq<int>)
    requires
        f.wf(),
        r.wf(),
        r.n == f.n,
        q.len() >= f.n,
        f.repriced(f2, q),
        r.repriced(r2, negated(q)),
        mirrored_counts(f.pedges, r.pedges),
        mirrored_counts_n(f.nedges, r.nedges),
    ensures
        mirrored_counts(f2.pedges, r2.pedges),
        mirrored_counts_n(f2.nedges, r2.nedges),
{
    let n = f.n;
    let nq = negated(q);
    assert forall|u: int, v: int, w: int| 0 <= u < f2.pedges.len() && 0 <= v < f2.pedges.len() implies #[trigger] count_edge(
        f2.pedges[u],
        v,
        w,
    ) == count_edge(r2.pedges[v], u, w) by {
        let s = q[u] - q[v];
        assert(nq[u] == -q[u] && nq[v] == -q[v]);
        assert forall|j: int| 0 <= j < f.pedges[u].len() && f.pedges[u][j].0 as int == v implies (
        #[trigger] f2.pedges[u][j]).1 == f.pedges[u][j].1 + s by {}
        assert forall|j: int| 0 <= j < f.pedges[u].len() implies (#[trigger] f2.pedges[u][j]).0 == f.pedges[u][j].0 by {}
        lemma_count_shift(f.pedges[u], f2.pedges[u], v, w, s);
        assert forall|k: int| 0 <= k < r.pedges[v].len() && r.pedges[v][k].0 as int == u implies (
        #[trigger] r2.pedges[v][k]).1 == r.pedges[v][k].1 + s by {}
        assert forall|k: int| 0 <= k < r.pedges[v].len() implies (#[trigger] r2.pedges[v][k]).0 == r.pedges[v][k].0 by {}
        lemma_count_shift(r.pedges[v], r2.pedges[v], u, w, s);
        assert(count_edge(f.pedges[u], v, w - s) == count_edge(r.pedges[v], u, w - s));
    }
    assert forall|u: int, v: int, w: int, t: bool|
        0 <= u < f2.nedges.len() && 0 <= v < f2.nedges.len() implies #[trigger] count_edge_n(f2.nedges[u], v, w, t)
        == count_edge_n(r2.nedges[v], u, w, t) by {
        let s = q[u] - q[v];
        assert(nq[u] == -q[u] && nq[v] == -q[v]);
        assert forall|j: int| 0 <= j < f.nedges[u].len() && f.nedges[u][j].0 as int == v implies (
        #[trigger] f2.nedges[u][j]).1 == f.nedges[u][j].1 + s by {}
        assert forall|j: int| 0 <= j < f.nedges[u].len() implies (#[trigger] f2.nedges[u][j]).0 == f.nedges[u][j].0
            && f2.nedges[u][j].2 == f.nedges[u][j].2 by {}
        lemma_count_shift_n(f.nedges[u], f2.nedges[u], v, w, t, s);
        assert forall|k: int| 0 <= k < r.nedges[v].len() && r.nedges[v][k].0 as int == u implies (
        #[trigger] r2.nedges[v][k]).1 == r.nedges[v][k].1 + s by {}
        assert forall|k: int| 0 <= k < r.nedges[v].len() implies (#[trigger] r2.nedges[v][k]).0 == r.nedges[v][k].0
            && r2.nedges[v][k].2 == r.nedges[v][k].2 by {}
        lemma_count_shift_n(r.nedges[v], r2.nedges[v], u, w, t, s);
        assert(count_edge_n(f.nedges[u], v, w - s, t) == count_edge_n(r.nedges[v], u, w - s, t));
    }
}

/// A walk of `f`, read backwards, is a walk of `r` when `r` mirrors `f`: it runs
/// from the end of the walk back to its start, with the same weight and hops.
pub proof fn lemma_reverse_walk(f: GraphModel, r: GraphModel, s: int, p: Seq<Step>) -> (q: Seq<Step>)
    requires
        f.wf(),
        r.wf(),
        r.n == f.n,
        mirrored(f.pedges, r.pedges),
        mirrored_n(f.nedges, r.nedges),
        f.is_walk(s, p),
    ensures
        r.is_walk(f.walk_end(s, p), q),
        r.walk_end(f.walk_end(s, p), q) == s,
        r.walk_weight(f.walk_end(s, p), q) == f.walk_weight(s, p),
        hops(q) == hops(p),
    decreases p.len(),
{
    if p.len() == 0 {
        Seq::empty()
    } else {
        let p0 = p.drop_last();
        let st = p.last();
        let x = f.walk_end(s, p0);
        let v = f.walk_end(s, p);
        let q0 = lemma_reverse_walk(f, r, s, p0);
        f.lemma_walk_end_in_range(s, p0);
        f.lemma_walk_end_in_range(s, p);
        let st2: Step = if st.0 {
            let e = f.nedges[x][st.1];
            assert(holds_n(r.nedges, e.0 as int, x, e.1, e.2));
            let k = choose|k: int|
                0 <= k < r.nedges[v].len() && (#[trigger] r.nedges[v][k]).0 as int == x && r.nedges[v][k].1 == e.1
                    && r.nedges[v][k].2 == e.2;
            (true, k)
        } else {
            let e = f.pedges[x][st.1];
            assert(holds_p(r.pedges, e.0 as int, x, e.1));
            let k = choose|k: int| 0 <= k < r.pedges[v].len() && (#[trigger] r.pedges[v][k]).0 as int == x && r.pedges[v][k].1 == e.1;
            (false, k)
        };
        let e0: Seq<Step> = Seq::empty();
        r.lemma_walk_push(v, e0, st2);
        assert(e0.push(st2) =~= seq![st2]);
        r.lemma_walk_concat(v, seq![st2], q0);
        seq![st2] + q0
    }
}

/// `out[v]` is the least weight of a walk of `g` from `v` to `t` with at most `h`
/// negative hops, `None` where there is no such walk: the distances to `t`.
pub open spec fn is_hop_dist_to(g: GraphModel, t: int, out: Seq<Option<i64>>, h: nat) -> bool {
    &&& out.len() == g.n
    &&& forall|v: int|
        0 <= v < g.n && (#[trigger] out[v]) is Some ==> exists|q: Seq<Step>|
            #[trigger] g.is_walk(v, q) && g.walk_end(v, q) == t && hops(q) <= h && g.walk_weight(v, q) == out[v].unwrap()
    &&& forall|v: int, q: Seq<Step>|
        #[trigger] g.is_walk(v, q) && g.walk_end(v, q) == t && hops(q) <= h ==> out[v] is Some && out[v].unwrap()
            <= g.walk_weight(v, q)
}

/// The distances from `t` in the reversed lists are the distances to `t` in the
/// forward lists, when the two mirror each other.
pub proof fn lemma_reversed_dist_is_dist_to(f: GraphModel, r: GraphModel, t: int, out: Seq<Option<i64>>, h: nat)
    requires
        f.wf(),
        r.wf(),
        r.n == f.n,
        mirrored(f.pedges, r.pedges),
        mirrored_n(f.nedges, r.nedges),
        0 <= t < f.n,
        r.is_hop_dist(single_start(f.n, t), out, h),
    ensures
        is_hop_dist_to(f, t, out, h),
{
    let init = single_start(f.n, t);
    assert(mirrored(r.pedges, f.pedges));
    assert(mirrored_n(r.nedges, f.nedges));
    assert forall|v: int| 0 <= v < f.n && (#[trigger] out[v]) is Some implies exists|q: Seq<Step>|
        #[trigger] f.is_walk(v, q) && f.walk_end(v, q) == t && hops(q) <= h && f.walk_weight(v, q) == out[v].unwrap() by {
        assert(r.reaches(init, v, out[v].unwrap() as int, Some(h)));
        reveal(GraphModel::reaches);
        let (s, p) = choose|s: int, p: Seq<Step>|
            #![trigger r.is_walk(s, p), init[s]]
            {
                &&& r.is_walk(s, p)
                &&& r.walk_end(s, p) == v
                &&& within(p, Some(h))
                &&& 0 <= s < init.len()
                &&& init[s] is Some
                &&& init[s].unwrap() + r.walk_weight(s, p) == out[v].unwrap() as int
            };
        assert(s == t);
        let q = lemma_reverse_walk(r, f, s, p);
        assert(f.is_walk(v, q) && f.walk_end(v, q) == t && hops(q) <= h && f.walk_weight(v, q) == out[v].unwrap());
    }
    assert forall|v: int, q: Seq<Step>| #[trigger] f.is_walk(v, q) && f.walk_end(v, q) == t && hops(q) <= h implies out[v] is Some
        && out[v].unwrap() <= f.walk_weight(v, q) by {
        let p = lemma_reverse_walk(f, r, v, q);
        assert(init[t] == Some(0i64));
        assert(within(p, Some(h)));
        assert(r.is_walk(t, p));
        assert(r.walk_end(t, p) == v);
    }
}

/// Activating every negative edge keeps the two directions mirrored.
proof fn lemma_activated_mirrored(f: GraphModel, r: GraphModel)
    requires
        f.wf(),
        r.wf(),
        r.n == f.n,
        mirrored_n(f.nedges, r.nedges),
    ensures
        mirrored_n(f.all_active().nedges, r.all_active().nedges),
{
    let fa = f.all_active().nedges;
    let ra = r.all_active().nedges;
    assert forall|u: int, j: int| 0 <= u < fa.len() && 0 <= j < fa[u].len() implies holds_n(
        ra,
        (#[trigger] fa[u][j]).0 as int,
        u,
        fa[u][j].1,
        fa[u][j].2,
    ) by {
        let v = f.nedges[u][j].0 as int;
        assert(fa[u] == f.nedges[u].map_values(|e: (usize, i64, bool)| (e.0, e.1, true)));
        assert(fa[u][j] == (f.nedges[u][j].0, f.nedges[u][j].1, true));
        assert(0 <= v < r.nedges.len());
        assert(holds_n(r.nedges, v, u, f.nedges[u][j].1, f.nedges[u][j].2));
        let k = choose|k: int|
            0 <= k < r.nedges[v].len() && (#[trigger] r.nedges[v][k]).0 as int == u && r.nedges[v][k].1 == f.nedges[u][j].1
                && r.nedges[v][k].2 == f.nedges[u][j].2;
        assert(ra[v] == r.nedges[v].map_values(|e: (usize, i64, bool)| (e.0, e.1, true)));
        assert(ra[v][k] == (r.nedges[v][k].0, r.nedges[v][k].1, true));
    }
    assert forall|a: int, k: int| 0 <= a < ra.len() && 0 <= k < ra[a].len() implies holds_n(
        fa,
        (#[trigger] ra[a][k]).0 as int,
        a,
        ra[a][k].1,
        ra[a][k].2,
    ) by {
        let b = r.nedges[a][k].0 as int;
        assert(ra[a] == r.nedges[a].map_values(|e: (usize, i64, bool)| (e.0, e.1, true)));
        assert(ra[a][k] == (r.nedges[a][k].0, r.nedges[a][k].1, true));
        assert(0 <= b < f.nedges.len());
        assert(holds_n(f.nedges, b, a, r.nedges[a][k].1, r.nedges[a][k].2));
        let j = choose|j: int|
            0 <= j < f.nedges[b].len() && (#[trigger] f.nedges[b][j]).0 as int == a && f.nedges[b][j].1 == r.nedges[a][k].1
                && f.nedges[b][j].2 == r.nedges[a][k].2;
        assert(fa[b] == f.nedges[b].map_values(|e: (usize, i64, bool)| (e.0, e.1, true)));
        assert(fa[b][j] == (f.nedges[b][j].0, f.nedges[b][j].1, true));
    }
}

/// A row holds an edge to `v` of weight `w` at least once exactly when it holds one.
proof fn lemma_count_edge_pos(row: Seq<(usize, i64)>, v: int, w: int)
    ensures
        count_edge(row, v, w) > 0 <==> exists|k: int| 0 <= k < row.len() && (#[trigger] row[k]).0 as int == v && row[k].1 as int == w,
    decreases row.len(),
{
    if row.len() > 0 {
        let r0 = row.drop_last();
        lemma_count_edge_pos(r0, v, w);
        if exists|k: int| 0 <= k < r0.len() && (#[trigger] r0[k]).0 as int == v && r0[k].1 as int == w {
            let k = choose|k: int| 0 <= k < r0.len() && (#[trigger] r0[k]).0 as int == v && r0[k].1 as int == w;
            assert(row[k] == r0[k]);
        }
        if exists|k: int| 0 <= k < row.len() && (#[trigger] row[k]).0 as int == v && row[k].1 as int == w {
            let k = choose|k: int| 0 <= k < row.len() && (#[trigger] row[k]).0 as int == v && row[k].1 as int == w;
            if k < row.len() - 1 {
                assert(r0[k] == row[k]);
            }
        }
    }
}

/// As `lemma_count_edge_pos`, for flagged edges.
proof fn lemma_count_edge_n_pos(row: Seq<(usize, i64, bool)>, v: int, w: int, t: bool)
    ensures
        count_edge_n(row, v, w, t) > 0 <==> exists|k: int|
            0 <= k < row.len() && (#[trigger] row[k]).0 as int == v && row[k].1 as int == w && row[k].2 == t,
    decreases row.len(),
{
    if row.len() > 0 {
        let r0 = row.drop_last();
        lemma_count_edge_n_pos(r0, v, w, t);
        if exists|k: int| 0 <= k < r0.len() && (#[trigger] r0[k]).0 as int == v && r0[k].1 as int == w && r0[k].2 == t {
            let k = choose|k: int| 0 <= k < r0.len() && (#[trigger] r0[k]).0 as int == v && r0[k].1 as int == w && r0[k].2 == t;
            assert(row[k] == r0[k]);
        }
        if exists|k: int| 0 <= k < row.len() && (#[trigger] row[k]).0 as int == v && row[k].1 as int == w && row[k].2 == t {
            let k = choose|k: int| 0 <= k < row.len() && (#[trigger] row[k]).0 as int == v && row[k].1 as int == w && row[k].2 == t;
            if k < row.len() - 1 {
                assert(r0[k] == row[k]);
            }
        }
    }
}

/// Lists mirrored copy for copy are mirrored: every edge has a reversed copy.
pub proof fn lemma_mirrored_of_counts(f: GraphModel, r: GraphModel)
    requires
        f.wf(),
        r.wf(),
        r.n == f.n,
        mirrored_counts(f.pedges, r.pedges),
        mirrored_counts_n(f.nedges, r.nedges),
    ensures
        mirrored(f.pedges, r.pedges),
        mirrored_n(f.nedges, r.nedges),
{
    assert forall|u: int, j: int| 0 <= u < f.pedges.len() && 0 <= j < f.pedges[u].len() implies holds_p(
        r.pedges,
        (#[trigger] f.pedges[u][j]).0 as int,
        u,
        f.pedges[u][j].1,
    ) by {
        let (v, w) = f.pedges[u][j];
        lemma_count_edge_pos(f.pedges[u], v as int, w as int);
        assert(count_edge(f.pedges[u], v as int, w as int) == count_edge(r.pedges[v as int], u, w as int));
        lemma_count_edge_pos(r.pedges[v as int], u, w as int);
    }
    assert forall|a: int, k: int| 0 <= a < r.pedges.len() && 0 <= k < r.pedges[a].len() implies holds_p(
        f.pedges,
        (#[trigger] r.pedges[a][k]).0 as int,
        a,
        r.pedges[a][k].1,
    ) by {
        let (b, w) = r.pedges[a][k];
        lemma_count_edge_pos(r.pedges[a], b as int, w as int);
        assert(count_edge(f.pedges[b as int], a, w as int) == count_edge(r.pedges[a], b as int, w as int));
        lemma_count_edge_pos(f.pedges[b as int], a, w as int);
    }
    assert forall|u: int, j: int| 0 <= u < f.nedges.len() && 0 <= j < f.nedges[u].len() implies holds_n(
        r.nedges,
        (#[trigger] f.nedges[u][j]).0 as int,
        u,
        f.nedges[u][j].1,
        f.nedges[u][j].2,
    ) by {
        let (v, w, t) = f.nedges[u][j];
        lemma_count_edge_n_pos(f.nedges[u], v as int, w as int, t);
        assert(count_edge_n(f.nedges[u], v as int, w as int, t) == count_edge_n(r.nedges[v as int], u, w as int, t));
        lemma_count_edge_n_pos(r.nedges[v as int], u, w as int, t);
    }
    assert forall|a: int, k: int| 0 <= a < r.nedges.len() && 0 <= k < r.nedges[a].len() implies holds_n(
        f.nedges,
        (#[trigger] r.nedges[a][k]).0 as int,
        a,
        r.nedges[a][k].1,
        r.nedges[a][k].2,
    ) by {
        let (b, w, t) = r.nedges[a][k];
        lemma_count_edge_n_pos(r.nedges[a], b as int, w as int, t);
        assert(count_edge_n(f.nedges[b as int], a, w as int, t) == count_edge_n(r.nedges[a], b as int, w as int, t));
        lemma_count_edge_n_pos(f.nedges[b as int], a, w as int, t);
    }
}

} // verus!
