//! Dijkstra's algorithm (multi-source, with optional origins) and Bellman-Ford.
use vstd::prelude::*;
use vstd::set_lib::set_int_range;
use vstd::set_lib::lemma_int_range;
use vstd::set_lib::lemma_len_subset;
use crate::paths::{
    GraphModel, Step, abs, all_zero, attained_from, dists, somes, improves, lemma_max_abs, lemma_max_abs_le,
    lemma_rows_len_n_prefix, lemma_rows_len_p_prefix, max_abs, rows_len_n, rows_len_p, within,
};

verus! {

/// A borrowed view of a weighted graph: `pedges[u]` holds the non-negative edges
/// `(v, w)` of `u`, `nedges[u]` its negative edges `(v, w, active)`.
#[derive(Debug, Clone, Copy)]
pub struct BorrowedWeightedGraph<'a> {
    pub n: usize,
    pub pedges: &'a Vec<Vec<(usize, i64)>>,
    pub nedges: &'a Vec<Vec<(usize, i64, bool)>>,
}

impl<'a> View for BorrowedWeightedGraph<'a> {
    type V = GraphModel;

    open spec fn view(&self) -> GraphModel {
        GraphModel {
            n: self.n as nat,
            pedges: self.pedges@.map_values(|r: Vec<(usize, i64)>| r@),
            nedges: self.nedges@.map_values(|r: Vec<(usize, i64, bool)>| r@),
        }
    }
}

/// `n` copies of `x`.
pub fn filled<T: Copy>(n: usize, x: T) -> (v: Vec<T>)
    ensures
        v@ == Seq::new(n as nat, |i: int| x),
{
    let mut v: Vec<T> = Vec::new();
    let mut i: usize = 0;
    while i < n
        invariant
            i <= n,
            v@ == Seq::new(i as nat, |k: int| x),
        decreases n - i,
    {
        v.push(x);
        i += 1;
        assert(v@ =~= Seq::new(i as nat, |k: int| x));
    }
    v
}

/// Settled vertices are labelled, their edges are relaxed, and their labels are
/// never above an unsettled label.
spec fn settled_ok(g: GraphModel, dist: Seq<Option<(i64, usize)>>, done: Seq<bool>) -> bool {
    &&& forall|u: int| 0 <= u < g.n && #[trigger] done[u] ==> dist[u] is Some
    &&& forall|u: int, j: int|
        0 <= u < g.n && done[u] && 0 <= j < g.pedges[u].len() ==> #[trigger] dist[g.pedges[u][j].0 as int] is Some
            && dist[g.pedges[u][j].0 as int].unwrap().0 <= dist[u].unwrap().0 + g.pedges[u][j].1
    &&& forall|x: int, y: int|
        0 <= x < g.n && 0 <= y < g.n && #[trigger] done[x] && !#[trigger] done[y] && dist[y] is Some
            ==> dist[x].unwrap().0 <= dist[y].unwrap().0
}

/// Labels only improve on the starts.
spec fn below_init(n: nat, init: Seq<Option<(i64, usize)>>, dist: Seq<Option<(i64, usize)>>) -> bool {
    forall|v: int|
        0 <= v < n && (#[trigger] init[v]) is Some ==> dist[v] is Some && dist[v].unwrap().0
            <= init[v].unwrap().0
}

/// Every label lies in `lo..=hi`.
spec fn labels_within(n: nat, dist: Seq<Option<(i64, usize)>>, lo: int, hi: int) -> bool {
    forall|v: int| 0 <= v < n && (#[trigger] dist[v]) is Some ==> lo <= dist[v].unwrap().0 <= hi
}

/// Index of the unsettled labelled vertex of least distance (ties go to the larger
/// index), or `dist.len()` when there is none.
fn select_min(done: &Vec<bool>, dist: &Vec<Option<(i64, usize)>>) -> (best: usize)
    requires
        done@.len() == dist@.len(),
    ensures
        best <= dist@.len(),
        best == dist@.len() ==> forall|k: int| 0 <= k < dist@.len() ==> done@[k] || (#[trigger] dist@[k]) is None,
        best < dist@.len() ==> !done@[best as int] && dist@[best as int] is Some,
        best < dist@.len() ==> forall|k: int|
            0 <= k < dist@.len() && !done@[k] && (#[trigger] dist@[k]) is Some ==> dist@[best as int].unwrap().0
                <= dist@[k].unwrap().0,
{
    let n = dist.len();
    let mut best: usize = n;
    let mut best_d: i64 = 0;
    let mut i: usize = 0;
    while i < n
        invariant
            n == dist@.len(),
            i <= n,
            done@.len() == n,
            best == n ==> forall|k: int| 0 <= k < i ==> done@[k] || (#[trigger] dist@[k]) is None,
            best < n ==> best < i && !done@[best as int] && dist@[best as int] is Some
                && dist@[best as int].unwrap().0 == best_d,
            best < n ==> forall|k: int|
                0 <= k < i && !done@[k] && (#[trigger] dist@[k]) is Some ==> best_d <= dist@[k].unwrap().0,
            best <= n,
        decreases n - i,
    {
        if !done[i] {
            match dist[i] {
                Some((d, _)) => {
                    if best == n || d <= best_d {
                        best = i;
                        best_d = d;
                    }
                },
                None => {},
            }
        }
        i += 1;
    }
    best
}

/// Relaxes every non-negative edge out of the selected vertex `u`.
fn relax_out_edges(
    graph: BorrowedWeightedGraph<'_>,
    dist: &mut Vec<Option<(i64, usize)>>,
    done: &Vec<bool>,
    u: usize,
    du: i64,
    ou: usize,
    Ghost(init): Ghost<Seq<Option<(i64, usize)>>>,
    Ghost(lo): Ghost<int>,
    Ghost(hi): Ghost<int>,
    Ghost(w_max): Ghost<int>,
)
    requires
        graph@.wf(),
        graph@.pedges_nonneg(),
        old(dist)@.len() == graph.n,
        done@.len() == graph.n,
        u < graph.n,
        !done@[u as int],
        old(dist)@[u as int] == Some((du, ou)),
        forall|k: int|
            0 <= k < graph.n && !done@[k] && (#[trigger] old(dist)@[k]) is Some ==> du <= old(
                dist,
            )@[k].unwrap().0,
        forall|uu: int, jj: int|
            0 <= uu < graph.n && 0 <= jj < graph@.pedges[uu].len() ==> #[trigger] graph@.pedges[uu][jj].1
                <= w_max,
        lo <= du,
        du + w_max <= hi,
        hi <= i64::MAX,
        lo >= i64::MIN,
        labels_within(graph@.n, old(dist)@, lo, hi),
        attained_from(graph@, init, old(dist)@, 0),
        settled_ok(graph@, old(dist)@, done@),
        below_init(graph@.n, init, old(dist)@),
    ensures
        final(dist)@.len() == graph.n,
        final(dist)@[u as int] == Some((du, ou)),
        labels_within(graph@.n, final(dist)@, lo, hi),
        attained_from(graph@, init, final(dist)@, 0),
        settled_ok(graph@, final(dist)@, done@.update(u as int, true)),
        below_init(graph@.n, init, final(dist)@),
{
    let n = graph.n;
    let ghost g = graph@;
    let ghost dist0 = dist@;
    let row = &graph.pedges[u];
    let mut j: usize = 0;
    while j < row.len()
        invariant
            g == graph@,
            g.wf(),
            g.pedges_nonneg(),
            n == graph.n,
            0 <= u < n,
            row@ == g.pedges[u as int],
            j <= row@.len(),
            forall|uu: int, jj: int|
                0 <= uu < n && 0 <= jj < g.pedges[uu].len() ==> #[trigger] g.pedges[uu][jj].1 <= w_max,
            lo <= du,
            du + w_max <= hi,
            hi <= i64::MAX,
            lo >= i64::MIN,
            dist@.len() == n,
            done@.len() == n,
            !done@[u as int],
            dist@[u as int] == Some((du, ou)),
            labels_within(g.n, dist@, lo, hi),
            attained_from(g, init, dist@, 0),
            below_init(g.n, init, dist@),
            settled_ok(g, dist@, done@),
            forall|x: int| 0 <= x < n && #[trigger] done@[x] ==> dist@[x] == dist0[x],
            forall|y: int|
                0 <= y < n && !done@[y] && (#[trigger] dist@[y]) is Some ==> du <= dist@[y].unwrap().0,
            forall|jj: int|
                0 <= jj < j ==> #[trigger] dist@[g.pedges[u as int][jj].0 as int] is Some
                    && dist@[g.pedges[u as int][jj].0 as int].unwrap().0 <= du + g.pedges[u as int][jj].1,
        decreases row@.len() - j,
    {
        let (v, w) = row[j];
        proof {
            assert(g.pedges[u as int][j as int] == (v, w));
            assert(0 <= w <= w_max);
            assert(v < n);
            // settled vertices sit at or below `du`
            assert forall|x: int| 0 <= x < n && #[trigger] done@[x] implies dist@[x] is Some && dist@[x].unwrap().0 <= du by {
                assert(done@[x] && !done@[u as int]);
            }
        }
        let nd = du + w;
        let better = match dist[v] {
            None => true,
            Some((d2, _)) => nd < d2,
        };
        if better {
            proof {
                assert(g.step_ok(u as int, (false, j as int)));
                g.lemma_reaches_from_step(init, u as int, du as int, ou, 0, (false, j as int));
                assert(!done@[v as int]);
            }
            dist.set(v, Some((nd, ou)));
            proof {
                assert forall|x: int, y: int|
                    0 <= x < n && 0 <= y < n && #[trigger] done@[x] && !#[trigger] done@[y] && dist@[y] is Some
                        implies dist@[x].unwrap().0 <= dist@[y].unwrap().0 by {
                    assert(done@[x] && !done@[u as int]);
                }
            }
        }
        j += 1;
    }
    proof {
        let done2 = done@.update(u as int, true);
        assert forall|x: int, y: int|
            0 <= x < n && 0 <= y < n && #[trigger] done2[x] && !#[trigger] done2[y] && dist@[y] is Some
                implies dist@[x].unwrap().0 <= dist@[y].unwrap().0 by {
            if x != u {
                assert(done@[x] && !done@[y]);
            }
        }
        assert forall|uu: int, jj: int|
            0 <= uu < n && done2[uu] && 0 <= jj < g.pedges[uu].len() implies #[trigger] dist@[g.pedges[uu][jj].0 as int] is Some
                && dist@[g.pedges[uu][jj].0 as int].unwrap().0 <= dist@[uu].unwrap().0 + g.pedges[uu][jj].1 by {
            if uu != u {
                assert(done@[uu]);
            }
        }
    }
}

/// Multi-source Dijkstra over the non-negative edges: each start `u` with
/// `dist[u] = Some((d, o))` begins at distance `d` carrying origin `o`.  The result
/// labels every vertex with its shortest distance from the starts (`None` when
/// unreachable) and the origin of a start from which a shortest walk comes.
/// vstd gives std's `BinaryHeap` no specification, so the next vertex to settle
/// is found by a scan of the labels: the run takes `O(n^2 + m)` steps.
pub fn dijkstra_with_origins(
    graph: BorrowedWeightedGraph<'_>,
    dist: Vec<Option<(i64, usize)>>,
) -> (res: Vec<Option<(i64, usize)>>)
    requires
        graph@.wf(),
        graph@.pedges_nonneg(),
        dist@.len() == graph.n,
        max_abs(dists(dist@)) + graph.n * graph@.pweight_bound() <= i64::MAX,
    ensures
        res@.len() == graph.n,
        graph@.is_hop_dist_with_origins(dist@, res@, 0),
        graph@.closed_p(dists(res@)),
        improves(dists(dist@), dists(res@)),
        max_abs(dists(res@)) <= max_abs(dists(dist@)) + graph.n * graph@.pweight_bound(),
{
    let n = graph.n;
    let ghost g = graph@;
    let ghost init = dist@;
    let ghost a = max_abs(dists(init)) as int;
    let ghost w_max = g.pweight_bound() as int;
    proof {
        lemma_max_abs(dists(init));
        g.lemma_weight_bounds();
        lemma_int_range(0, n as int);
        g.lemma_attained_self(init, 0);
        assert forall|v: int| 0 <= v < n && (#[trigger] init[v]) is Some implies -a <= init[v].unwrap().0 <= a by {
            assert(dists(init)[v] == Some(init[v].unwrap().0));
        }
        assert(a * 1 <= a + 0 * w_max);
    }
    let mut dist = dist;
    let mut done: Vec<bool> = filled(n, false);
    let mut count: usize = 0;
    let ghost mut settled: Set<int> = Set::empty();
    loop
        invariant
            g == graph@,
            g.wf(),
            g.pedges_nonneg(),
            n == graph.n,
            init.len() == n,
            a == max_abs(dists(init)),
            w_max == g.pweight_bound(),
            w_max >= 0,
            a >= 0,
            a + n * w_max <= i64::MAX,
            forall|u: int, j: int|
                0 <= u < n && 0 <= j < g.pedges[u].len() ==> #[trigger] g.pedges[u][j].1 <= w_max,
            dist@.len() == n,
            done@.len() == n,
            count <= n,
            settled.finite(),
            settled.len() == count,
            set_int_range(0, n as int).finite(),
            set_int_range(0, n as int).len() == n,
            forall|x: int| settled.contains(x) ==> 0 <= x < n,
            forall|v: int| 0 <= v < n ==> (#[trigger] done@[v] <==> settled.contains(v)),
            attained_from(g, init, dist@, 0),
            settled_ok(g, dist@, done@),
            below_init(g.n, init, dist@),
            labels_within(g.n, dist@, -a, a + count * w_max),
        ensures
            forall|v: int| 0 <= v < n && (#[trigger] dist@[v]) is Some ==> done@[v],
        decreases n - count,
    {
        let u = select_min(&done, &dist);
        if u == n {
            break ;
        }
        let (du, ou) = match dist[u] {
            Some(x) => x,
            None => (0, 0),
        };
        proof {
            assert(dist@[u as int] == Some((du, ou)));
            assert(!settled.contains(u as int));
            assert(settled.insert(u as int).subset_of(set_int_range(0, n as int)));
            lemma_len_subset(settled.insert(u as int), set_int_range(0, n as int));
            assert(count + 1 <= n);
            assert((count + 1) * w_max == count * w_max + w_max) by (nonlinear_arith);
            assert((count + 1) * w_max <= n * w_max) by (nonlinear_arith)
                requires
                    count + 1 <= n,
                    w_max >= 0,
            ;
            assert(count * w_max >= 0) by (nonlinear_arith)
                requires
                    w_max >= 0,
            ;
            assert forall|v: int| 0 <= v < n && (#[trigger] dist@[v]) is Some implies -a <= dist@[v].unwrap().0 <= a + (count + 1) * w_max by {}
        }
        relax_out_edges(
            graph,
            &mut dist,
            &done,
            u,
            du,
            ou,
            Ghost(init),
            Ghost(-a),
            Ghost(a + (count + 1) * w_max),
            Ghost(w_max),
        );
        done.set(u, true);
        proof {
            settled = settled.insert(u as int);
        }
        count += 1;
    }
    proof {
        let out = dists(dist@);
        assert(g.closed_p(out)) by {
            assert forall|uu: int, jj: int|
                0 <= uu < g.n && 0 <= jj < g.pedges[uu].len() && (#[trigger] out[uu]) is Some
                    implies #[trigger] out[g.pedges[uu][jj].0 as int] is Some && out[g.pedges[uu][jj].0 as int].unwrap()
                    <= out[uu].unwrap() + g.pedges[uu][jj].1 by {
                assert(dist@[uu] is Some);
                assert(done@[uu]);
                let t = g.pedges[uu][jj].0 as int;
                assert(dist@[t] is Some);
            }
        }
        assert(improves(dists(init), out)) by {
            assert forall|v: int| 0 <= v < dists(init).len() && (#[trigger] dists(init)[v]) is Some implies out[v] is Some && out[v].unwrap() <= dists(init)[v].unwrap() by {
                assert(init[v] is Some);
            }
        }
        g.lemma_bounded_zero_hops(dists(init), out);
        assert forall|v: int| 0 <= v < g.n && (#[trigger] out[v]) is Some implies g.reaches(
            dists(init),
            v,
            out[v].unwrap() as int,
            Some(0),
        ) by {
            assert(dist@[v] is Some);
            g.lemma_reaches_from_dists(init, v, dist@[v].unwrap().0 as int, dist@[v].unwrap().1, Some(0));
        }
        assert(count * w_max <= n * w_max) by (nonlinear_arith)
            requires
                count <= n,
                w_max >= 0,
        ;
        assert forall|v: int| 0 <= v < out.len() && (#[trigger] out[v]) is Some implies abs(out[v].unwrap() as int) <= a + n * w_max by {
            assert(dist@[v] is Some);
        }
        lemma_max_abs_le(out, a + n * w_max);
    }
    dist
}

/// The labels `dist` with origin 0 attached.
pub open spec fn attach(dist: Seq<Option<i64>>) -> Seq<Option<(i64, usize)>> {
    dist.map_values(
        |x: Option<i64>|
            match x {
                Some(d) => Some((d, 0usize)),
                None => None,
            },
    )
}

/// Attaches origin 0 to every label.
pub fn with_zero_origins(dist: &Vec<Option<i64>>) -> (res: Vec<Option<(i64, usize)>>)
    ensures
        res@ == attach(dist@),
        dists(res@) == dist@,
{
    let mut res: Vec<Option<(i64, usize)>> = Vec::new();
    let mut i: usize = 0;
    while i < dist.len()
        invariant
            i <= dist@.len(),
            res@ == attach(dist@.take(i as int)),
        decreases dist@.len() - i,
    {
        let x = match dist[i] {
            Some(d) => Some((d, 0usize)),
            None => None,
        };
        res.push(x);
        i += 1;
        assert(attach(dist@.take(i as int)) =~= attach(dist@.take(i - 1)).push(x));
    }
    assert(dist@.take(dist@.len() as int) =~= dist@);
    assert(dists(res@) =~= dist@);
    res
}

/// Drops the origins, keeping the distances.
pub fn without_origins(dist: &Vec<Option<(i64, usize)>>) -> (res: Vec<Option<i64>>)
    ensures
        res@ == dists(dist@),
{
    let mut res: Vec<Option<i64>> = Vec::new();
    let mut i: usize = 0;
    while i < dist.len()
        invariant
            i <= dist@.len(),
            res@ == dists(dist@.take(i as int)),
        decreases dist@.len() - i,
    {
        let x = match dist[i] {
            Some(p) => Some(p.0),
            None => None,
        };
        res.push(x);
        i += 1;
        assert(dists(dist@.take(i as int)) =~= dists(dist@.take(i - 1)).push(x));
    }
    assert(dist@.take(dist@.len() as int) =~= dist@);
    res
}

/// Multi-source Dijkstra over the non-negative edges: the result is the shortest
/// distance from the starts `dist` (a start `u` begins at `dist[u]`), `None` where
/// no start reaches.
pub fn dijkstra(graph: BorrowedWeightedGraph<'_>, dist: Vec<Option<i64>>) -> (res: Vec<Option<i64>>)
    requires
        graph@.wf(),
        graph@.pedges_nonneg(),
        dist@.len() == graph.n,
        max_abs(dist@) + graph.n * graph@.pweight_bound() <= i64::MAX,
    ensures
        res@.len() == graph.n,
        graph@.is_hop_dist(dist@, res@, 0),
        graph@.closed_p(res@),
        improves(dist@, res@),
        max_abs(res@) <= max_abs(dist@) + graph.n * graph@.pweight_bound(),
{
    let labelled = with_zero_origins(&dist);
    let out = dijkstra_with_origins(graph, labelled);
    without_origins(&out)
}

/// Edge `st` of `x` has already been examined in the current pass, which is at
/// vertex `u`, in the negative-edge phase when `neg_phase`, at index `jj`.
pub open spec fn examined(u: int, neg_phase: bool, jj: int, x: int, st: Step) -> bool {
    x < u || (x == u && if st.0 {
        neg_phase && st.1 < jj
    } else {
        neg_phase || st.1 < jj
    })
}

/// Every value is attained by some walk (every vertex starts at 0).
spec fn bf_attained(g: GraphModel, d: Seq<i64>) -> bool {
    forall|v: int| 0 <= v < g.n ==> g.reaches(all_zero(g.n), v, #[trigger] d[v] as int, None)
}

/// Walks of at most `k` steps cannot beat the values.
spec fn bf_short_bounded(g: GraphModel, d: Seq<i64>, k: int) -> bool {
    forall|s: int, p: Seq<Step>|
        #[trigger] g.is_walk(s, p) && p.len() <= k ==> d[g.walk_end(s, p)] <= g.walk_weight(s, p)
}

/// No walk at all beats the values.
spec fn bf_all_bounded(g: GraphModel, d: Seq<i64>) -> bool {
    forall|s: int, p: Seq<Step>| #[trigger] g.is_walk(s, p) ==> d[g.walk_end(s, p)] <= g.walk_weight(s, p)
}

/// Walks of at most `k + 1` steps whose last edge has been examined cannot beat the values.
spec fn bf_examined_bounded(g: GraphModel, d: Seq<i64>, k: int, u: int, neg_phase: bool, jj: int) -> bool {
    forall|s: int, p: Seq<Step>|
        #[trigger] g.is_walk(s, p) && 1 <= p.len() <= k + 1 && examined(
            u,
            neg_phase,
            jj,
            g.walk_end(s, p.drop_last()),
            p.last(),
        ) ==> d[g.walk_end(s, p)] <= g.walk_weight(s, p)
}

/// Examined edges cannot improve their targets.
spec fn bf_examined_closed(g: GraphModel, d: Seq<i64>, u: int, neg_phase: bool, jj: int) -> bool {
    forall|x: int, st: Step|
        #[trigger] g.step_ok(x, st) && examined(u, neg_phase, jj, x, st) ==> d[g.step_target(x, st)]
            <= d[x] + g.step_weight(x, st)
}

/// Number of edges examined before position `(u, neg_phase, jj)` of a pass.
spec fn pass_prefix(g: GraphModel, u: int, neg_phase: bool, jj: int) -> int {
    rows_len_p(g.pedges.take(u)) + rows_len_n(g.nedges.take(u)) + (if neg_phase {
        g.pedges[u].len() as int
    } else {
        0
    }) + jj
}

/// The state shared by the passes of Bellman-Ford.
spec fn bf_state(g: GraphModel, d: Seq<i64>, k: int, cnt: int, w_max: int) -> bool {
    &&& d.len() == g.n
    &&& bf_attained(g, d)
    &&& bf_short_bounded(g, d, k)
    &&& forall|v: int| 0 <= v < g.n ==> -(cnt * w_max) <= #[trigger] d[v] <= 0
}

impl GraphModel {
    proof fn lemma_bf_step(
        self,
        d0: Seq<i64>,
        d: Seq<i64>,
        k: int,
        u: int,
        neg_phase: bool,
        jj: int,
        st: Step,
        still_closed: bool,
    )
        requires
            self.wf(),
            d0.len() == self.n,
            bf_short_bounded(self, d0, k),
            bf_examined_bounded(self, d0, k, u, neg_phase, jj),
            still_closed ==> bf_examined_closed(self, d0, u, neg_phase, jj),
            0 <= u < self.n,
            st.0 == neg_phase,
            st.1 == jj,
            d.len() == self.n,
            forall|v: int| 0 <= v < self.n ==> #[trigger] d[v] <= d0[v],
            still_closed ==> d == d0,
            self.step_ok(u, st) ==> d[self.step_target(u, st)] <= d0[u] + self.step_weight(u, st),
        ensures
            bf_short_bounded(self, d, k),
            bf_examined_bounded(self, d, k, u, neg_phase, jj + 1),
            still_closed ==> bf_examined_closed(self, d, u, neg_phase, jj + 1),
    {
        assert forall|s: int, p: Seq<Step>|
            #[trigger] self.is_walk(s, p) && p.len() <= k implies d[self.walk_end(s, p)] <= self.walk_weight(s, p) by {
            self.lemma_walk_end_in_range(s, p);
        }
        assert forall|s: int, p: Seq<Step>|
            #[trigger] self.is_walk(s, p) && 1 <= p.len() <= k + 1 && examined(
                u,
                neg_phase,
                jj + 1,
                self.walk_end(s, p.drop_last()),
                p.last(),
            ) implies d[self.walk_end(s, p)] <= self.walk_weight(s, p) by {
            self.lemma_walk_end_in_range(s, p);
            let q = p.drop_last();
            let x = self.walk_end(s, q);
            if !examined(u, neg_phase, jj, x, p.last()) {
                assert(x == u && p.last() == st);
                assert(self.is_walk(s, q));
                assert(d0[self.walk_end(s, q)] <= self.walk_weight(s, q));
            }
        }
        if still_closed {
            assert forall|x: int, st2: Step|
                #[trigger] self.step_ok(x, st2) && examined(u, neg_phase, jj + 1, x, st2) implies d[self.step_target(x, st2)]
                    <= d[x] + self.step_weight(x, st2) by {
                if !examined(u, neg_phase, jj, x, st2) {
                    assert(x == u && st2 == st);
                }
            }
        }
    }
}

/// One Gauss-Seidel pass of Bellman-Ford over the out-edges of `u`: every
/// non-negative edge, then every active negative edge.
fn bf_relax_vertex(
    graph: BorrowedWeightedGraph<'_>,
    dist: &mut Vec<i64>,
    u: usize,
    Ghost(k): Ghost<int>,
    Ghost(cnt): Ghost<int>,
    Ghost(w_max): Ghost<int>,
    Ghost(m): Ghost<int>,
) -> (res: (bool, Ghost<int>))
    requires
        graph@.wf(),
        u < graph.n,
        0 <= k < graph.n,
        w_max == graph@.weight_bound(),
        m == graph@.edge_total(),
        graph.n * m * w_max <= i64::MAX,
        0 <= cnt,
        cnt <= k * m + pass_prefix(graph@, u as int, false, 0),
        bf_state(graph@, old(dist)@, k, cnt, w_max),
        bf_examined_bounded(graph@, old(dist)@, k, u as int, false, 0),
    ensures
        bf_state(graph@, final(dist)@, k, res.1@, w_max),
        0 <= res.1@ <= k * m + pass_prefix(graph@, u as int + 1, false, 0),
        bf_examined_bounded(graph@, final(dist)@, k, u as int + 1, false, 0),
        !res.0 ==> final(dist)@ == old(dist)@,
        !res.0 && bf_examined_closed(graph@, old(dist)@, u as int, false, 0) ==> bf_examined_closed(
            graph@,
            final(dist)@,
            u as int + 1,
            false,
            0,
        ),
        bf_all_bounded(graph@, old(dist)@) ==> !res.0,
{
    let ghost g = graph@;
    let ghost d_start = dist@;
    let ghost mut c = cnt;
    let ghost closed0 = bf_examined_closed(graph@, dist@, u as int, false, 0);
    let mut relaxed = false;
    proof {
        g.lemma_weight_bounds();
        lemma_rows_len_p_prefix(g.pedges, u as int);
        lemma_rows_len_n_prefix(g.nedges, u as int);
        assert(k * m + m <= g.n * m) by (nonlinear_arith)
            requires
                k < g.n,
                m >= 0,
        ;
        assert(pass_prefix(g, u as int, false, 0) + g.pedges[u as int].len() + g.nedges[u as int].len() <= m);
    }
    let prow = &graph.pedges[u];
    let mut j: usize = 0;
    while j < prow.len()
        invariant
            g == graph@,
            g.wf(),
            0 <= u < g.n,
            prow@ == g.pedges[u as int],
            j <= prow@.len(),
            0 <= k < g.n,
            w_max == g.weight_bound(),
            m == g.edge_total(),
            g.n * m * w_max <= i64::MAX,
            k * m + m <= g.n * m,
            pass_prefix(g, u as int, false, 0) + g.pedges[u as int].len() + g.nedges[u as int].len() <= m,
            forall|uu: int, jj: int|
                0 <= uu < g.pedges.len() && 0 <= jj < g.pedges[uu].len() ==> abs(
                    (#[trigger] g.pedges[uu][jj]).1 as int,
                ) <= w_max,
            0 <= c <= k * m + pass_prefix(g, u as int, false, j as int),
            bf_state(g, dist@, k, c, w_max),
            bf_examined_bounded(g, dist@, k, u as int, false, j as int),
            !relaxed ==> dist@ == d_start,
            !relaxed && closed0 ==> bf_examined_closed(g, dist@, u as int, false, j as int),
            closed0 == bf_examined_closed(g, d_start, u as int, false, 0),
            bf_all_bounded(g, d_start) ==> !relaxed,
            forall|v: int| 0 <= v < g.n ==> #[trigger] dist@[v] <= d_start[v],
        decreases prow@.len() - j,
    {
        let (v, w) = prow[j];
        let ghost d0 = dist@;
        proof {
            assert(g.pedges[u as int][j as int] == (v, w));
            assert(v < g.n);
            assert(abs(w as int) <= w_max);
            assert(c + 1 <= g.n * m);
            assert((c + 1) * w_max <= g.n * m * w_max) by (nonlinear_arith)
                requires
                    c + 1 <= g.n * m,
                    w_max >= 0,
            ;
            assert((c + 1) * w_max == c * w_max + w_max) by (nonlinear_arith);
            assert(-(c * w_max) <= dist@[u as int] <= 0);
        }
        let cand = dist[u] + w;
        if dist[v] > cand {
            proof {
                assert(g.reaches(all_zero(g.n), u as int, dist@[u as int] as int, None));
                g.lemma_reaches_step_any(all_zero(g.n), u as int, dist@[u as int] as int, (false, j as int));
                if bf_all_bounded(g, d_start) {
                    let (s, p) = g.lemma_reaches_any_witness(all_zero(g.n), v as int, cand as int);
                    assert(d_start[g.walk_end(s, p)] <= g.walk_weight(s, p));
                    assert(false);
                }
            }
            dist.set(v, cand);
            relaxed = true;
        }
        proof {
            assert(g.step_target(u as int, (false, j as int)) == v);
            assert(g.step_weight(u as int, (false, j as int)) == w);
            g.lemma_bf_step(d0, dist@, k, u as int, false, j as int, (false, j as int), !relaxed && closed0);
            c = c + 1;
            assert forall|x: int| 0 <= x < g.n implies -(c * w_max) <= #[trigger] dist@[x] <= 0 by {
                assert(-((c - 1) * w_max) <= d0[x]);
            }
        }
        j += 1;
    }
    let nrow = &graph.nedges[u];
    let mut j: usize = 0;
    proof {
        assert(bf_examined_bounded(g, dist@, k, u as int, true, 0)) by {
            assert forall|s: int, p: Seq<Step>|
                #[trigger] g.is_walk(s, p) && 1 <= p.len() <= k + 1 && examined(
                    u as int,
                    true,
                    0,
                    g.walk_end(s, p.drop_last()),
                    p.last(),
                ) implies dist@[g.walk_end(s, p)] <= g.walk_weight(s, p) by {
                assert(examined(u as int, false, prow@.len() as int, g.walk_end(s, p.drop_last()), p.last()));
            }
        }
        if !relaxed && closed0 {
            assert forall|x: int, st2: Step|
                #[trigger] g.step_ok(x, st2) && examined(u as int, true, 0, x, st2) implies dist@[g.step_target(x, st2)]
                    <= dist@[x] + g.step_weight(x, st2) by {
                assert(examined(u as int, false, prow@.len() as int, x, st2));
            }
        }
    }
    while j < nrow.len()
        invariant
            g == graph@,
            g.wf(),
            0 <= u < g.n,
            nrow@ == g.nedges[u as int],
            j <= nrow@.len(),
            0 <= k < g.n,
            w_max == g.weight_bound(),
            m == g.edge_total(),
            g.n * m * w_max <= i64::MAX,
            k * m + m <= g.n * m,
            pass_prefix(g, u as int, false, 0) + g.pedges[u as int].len() + g.nedges[u as int].len() <= m,
            forall|uu: int, jj: int|
                0 <= uu < g.nedges.len() && 0 <= jj < g.nedges[uu].len() ==> abs(
                    (#[trigger] g.nedges[uu][jj]).1 as int,
                ) <= w_max,
            0 <= c <= k * m + pass_prefix(g, u as int, true, j as int),
            bf_state(g, dist@, k, c, w_max),
            bf_examined_bounded(g, dist@, k, u as int, true, j as int),
            !relaxed ==> dist@ == d_start,
            !relaxed && closed0 ==> bf_examined_closed(g, dist@, u as int, true, j as int),
            closed0 == bf_examined_closed(g, d_start, u as int, false, 0),
            bf_all_bounded(g, d_start) ==> !relaxed,
            forall|v: int| 0 <= v < g.n ==> #[trigger] dist@[v] <= d_start[v],
        decreases nrow@.len() - j,
    {
        let (v, w, t) = nrow[j];
        let ghost d0 = dist@;
        proof {
            assert(g.nedges[u as int][j as int] == (v, w, t));
            assert(v < g.n);
            assert(abs(w as int) <= w_max);
            assert(c + 1 <= g.n * m);
            assert((c + 1) * w_max <= g.n * m * w_max) by (nonlinear_arith)
                requires
                    c + 1 <= g.n * m,
                    w_max >= 0,
            ;
            assert((c + 1) * w_max == c * w_max + w_max) by (nonlinear_arith);
            assert(-(c * w_max) <= dist@[u as int] <= 0);
        }
        if t {
            let cand = dist[u] + w;
            if dist[v] > cand {
                proof {
                    assert(g.reaches(all_zero(g.n), u as int, dist@[u as int] as int, None));
                    g.lemma_reaches_step_any(all_zero(g.n), u as int, dist@[u as int] as int, (true, j as int));
                    if bf_all_bounded(g, d_start) {
                        let (s, p) = g.lemma_reaches_any_witness(all_zero(g.n), v as int, cand as int);
                        assert(d_start[g.walk_end(s, p)] <= g.walk_weight(s, p));
                        assert(false);
                    }
                }
                dist.set(v, cand);
                relaxed = true;
            }
        }
        proof {
            assert(g.step_target(u as int, (true, j as int)) == v);
            assert(g.step_weight(u as int, (true, j as int)) == w);
            assert(g.step_ok(u as int, (true, j as int)) ==> t);
            g.lemma_bf_step(d0, dist@, k, u as int, true, j as int, (true, j as int), !relaxed && closed0);
            c = c + 1;
            assert forall|x: int| 0 <= x < g.n implies -(c * w_max) <= #[trigger] dist@[x] <= 0 by {
                assert(-((c - 1) * w_max) <= d0[x]);
            }
        }
        j += 1;
    }
    proof {
        assert(pass_prefix(g, u as int + 1, false, 0) == pass_prefix(g, u as int, true, nrow@.len() as int));
        assert forall|s: int, p: Seq<Step>|
            #[trigger] g.is_walk(s, p) && 1 <= p.len() <= k + 1 && examined(
                u as int + 1,
                false,
                0,
                g.walk_end(s, p.drop_last()),
                p.last(),
            ) implies dist@[g.walk_end(s, p)] <= g.walk_weight(s, p) by {
            let x = g.walk_end(s, p.drop_last());
            if x == u {
                assert(g.is_walk(s, p.drop_last()));
                assert(g.step_ok(x, p.last()));
            }
            assert(examined(u as int, true, nrow@.len() as int, x, p.last()));
        }
        if !relaxed && closed0 {
            assert forall|x: int, st2: Step|
                #[trigger] g.step_ok(x, st2) && examined(u as int + 1, false, 0, x, st2) implies dist@[g.step_target(x, st2)]
                    <= dist@[x] + g.step_weight(x, st2) by {
                assert(examined(u as int, true, nrow@.len() as int, x, st2));
            }
        }
    }
    (relaxed, Ghost(c))
}

/// Bellman-Ford from every vertex at distance 0, over the non-negative edges and
/// the active negative edges, for at most `n` passes.  `Ok(d)`: `d[v]` is the least
/// weight of a walk ending at `v` (0 for the empty walk), a potential that makes
/// every edge non-negative (on a graph without vertices, the empty potential).
/// `Err(())`: a pass still improved after `n` passes, which happens exactly when
/// the graph has a negative cycle.
pub fn bellman_ford(graph: BorrowedWeightedGraph<'_>) -> (res: Result<Vec<i64>, ()>)
    requires
        graph@.wf(),
        graph.n * graph@.edge_total() * graph@.weight_bound() <= i64::MAX,
    ensures
        match res {
            Ok(d) => graph@.is_dist(all_zero(graph@.n), somes(d@)) && graph@.eliminates(d@),
            Err(_) => graph@.has_negative_cycle(),
        },
        res is Err <==> graph@.has_negative_cycle(),
{
    let n = graph.n;
    let ghost g = graph@;
    if n == 0 {
        let d: Vec<i64> = Vec::new();
        proof {
            assert(somes(d@) =~= Seq::<Option<i64>>::empty());
            assert forall|s: int, p: Seq<Step>|
                #![trigger g.is_walk(s, p), all_zero(g.n)[s]]
                g.is_walk(s, p) && within(p, None) && 0 <= s < all_zero(g.n).len() && all_zero(g.n)[s] is Some implies {
                    let v = g.walk_end(s, p);
                    &&& somes(d@)[v] is Some
                    &&& somes(d@)[v].unwrap() <= all_zero(g.n)[s].unwrap() + g.walk_weight(s, p)
                } by {
            }
            if g.has_negative_cycle() {
                let (s, p) = choose|s: int, p: Seq<Step>|
                    #[trigger] g.is_walk(s, p) && p.len() > 0 && g.walk_end(s, p) == s && g.walk_weight(s, p) < 0;
                g.lemma_walk_start_in_range(s, p);
            }
        }
        return Ok(d);
    }
    let ghost w_max = g.weight_bound() as int;
    let ghost m = g.edge_total() as int;
    let mut dist = filled(n, 0i64);
    let ghost mut cnt: int = 0;
    proof {
        assert forall|v: int| 0 <= v < g.n implies g.reaches(all_zero(g.n), v, #[trigger] dist@[v] as int, None) by {
            g.lemma_reaches_start(all_zero(g.n), v, None);
        }
        assert forall|s: int, p: Seq<Step>|
            #[trigger] g.is_walk(s, p) && p.len() <= 0 implies dist@[g.walk_end(s, p)] <= g.walk_weight(s, p) by {
        }
    }
    let mut r: usize = 0;
    while r < n
        invariant
            g == graph@,
            g.wf(),
            n == g.n,
            r <= n,
            w_max == g.weight_bound(),
            m == g.edge_total(),
            g.n * m * w_max <= i64::MAX,
            0 <= cnt <= r * m,
            bf_state(g, dist@, r as int, cnt, w_max),
            r >= n && n > 0 ==> g.has_negative_cycle(),
        decreases n - r,
    {
        let ghost d_start = dist@;
        proof {
            if r + 1 == n && !g.has_negative_cycle() {
                assert forall|s: int, p: Seq<Step>| #[trigger] g.is_walk(s, p) implies d_start[g.walk_end(
                    s,
                    p,
                )] <= g.walk_weight(s, p) by {
                    let q = g.lemma_short_walk(s, p);
                    assert(g.is_walk(s, q) && q.len() <= r);
                }
            }
            assert forall|s: int, p: Seq<Step>|
                #[trigger] g.is_walk(s, p) && 1 <= p.len() <= r + 1 && examined(
                    0,
                    false,
                    0,
                    g.walk_end(s, p.drop_last()),
                    p.last(),
                ) implies dist@[g.walk_end(s, p)] <= g.walk_weight(s, p) by {
                g.lemma_walk_end_in_range(s, p.drop_last());
            }
            assert forall|x: int, st2: Step|
                #[trigger] g.step_ok(x, st2) && examined(0, false, 0, x, st2) implies dist@[g.step_target(x, st2)]
                    <= dist@[x] + g.step_weight(x, st2) by {}
            assert(g.pedges.take(0) =~= Seq::<Seq<(usize, i64)>>::empty());
            assert(g.nedges.take(0) =~= Seq::<Seq<(usize, i64, bool)>>::empty());
        }
        let mut relaxed = false;
        let mut u: usize = 0;
        while u < n
            invariant
                g == graph@,
                g.wf(),
                n == g.n,
                r < n,
                u <= n,
                w_max == g.weight_bound(),
                m == g.edge_total(),
                g.n * m * w_max <= i64::MAX,
                0 <= cnt <= r * m + pass_prefix(g, u as int, false, 0),
                bf_state(g, dist@, r as int, cnt, w_max),
                bf_examined_bounded(g, dist@, r as int, u as int, false, 0),
                !relaxed ==> dist@ == d_start,
                !relaxed ==> bf_examined_closed(g, dist@, u as int, false, 0),
                r + 1 == n && !g.has_negative_cycle() ==> bf_all_bounded(g, d_start) && !relaxed,
            decreases n - u,
        {
            let (rel, Ghost(c2)) = bf_relax_vertex(
                graph,
                &mut dist,
                u,
                Ghost(r as int),
                Ghost(cnt),
                Ghost(w_max),
                Ghost(m),
            );
            proof {
                cnt = c2;
            }
            relaxed = relaxed || rel;
            u += 1;
        }
        proof {
            assert(g.pedges.take(n as int) =~= g.pedges);
            assert(g.nedges.take(n as int) =~= g.nedges);
            assert(pass_prefix(g, n as int, false, 0) == m);
            assert(r * m + m == (r + 1) * m) by (nonlinear_arith);
            assert forall|s: int, p: Seq<Step>|
                #[trigger] g.is_walk(s, p) && p.len() <= r + 1 implies dist@[g.walk_end(s, p)] <= g.walk_weight(s, p) by {
                if p.len() >= 1 {
                    g.lemma_walk_end_in_range(s, p.drop_last());
                    assert(g.is_walk(s, p.drop_last()));
                    assert(g.step_ok(g.walk_end(s, p.drop_last()), p.last()));
                }
            }
        }
        if !relaxed {
            proof {
                let d = dist@;
                let sd = somes(d);
                assert forall|x: int, st2: Step| #[trigger] g.step_ok(x, st2) implies d[g.step_target(x, st2)]
                    <= d[x] + g.step_weight(x, st2) by {
                    assert(examined(n as int, false, 0, x, st2));
                }
                assert(g.eliminates(d)) by {
                    assert forall|uu: int, jj: int| 0 <= uu < g.n && 0 <= jj < g.pedges[uu].len() implies d[g.pedges[uu][jj].0 as int]
                        <= d[uu] + #[trigger] g.pedges[uu][jj].1 by {
                        assert(g.step_ok(uu, (false, jj)));
                    }
                    assert forall|uu: int, jj: int| 0 <= uu < g.n && 0 <= jj < g.nedges[uu].len() && #[trigger] g.nedges[uu][jj].2
                        implies d[g.nedges[uu][jj].0 as int] <= d[uu] + g.nedges[uu][jj].1 by {
                        assert(g.step_ok(uu, (true, jj)));
                    }
                }
                assert(g.closed_p(sd)) by {
                    assert forall|uu: int, jj: int|
                        0 <= uu < g.n && 0 <= jj < g.pedges[uu].len() && (#[trigger] sd[uu]) is Some
                            implies #[trigger] sd[g.pedges[uu][jj].0 as int] is Some && sd[g.pedges[uu][jj].0 as int].unwrap()
                            <= sd[uu].unwrap() + g.pedges[uu][jj].1 by {
                        assert(g.step_ok(uu, (false, jj)));
                    }
                }
                assert(g.closed_n(sd, sd)) by {
                    assert forall|uu: int, jj: int|
                        0 <= uu < g.n && 0 <= jj < g.nedges[uu].len() && (#[trigger] sd[uu]) is Some
                            && #[trigger] g.nedges[uu][jj].2 implies sd[g.nedges[uu][jj].0 as int] is Some
                            && sd[g.nedges[uu][jj].0 as int].unwrap() <= sd[uu].unwrap() + g.nedges[uu][jj].1 by {
                        assert(g.step_ok(uu, (true, jj)));
                    }
                }
                assert(improves(all_zero(g.n), sd)) by {
                    assert forall|v: int| 0 <= v < all_zero(g.n).len() && (#[trigger] all_zero(g.n)[v]) is Some implies sd[v] is Some
                        && sd[v].unwrap() <= all_zero(g.n)[v].unwrap() by {
                        assert(d[v] <= 0);
                    }
                }
                g.lemma_bounded_closed(all_zero(g.n), sd, None);
                assert forall|v: int| 0 <= v < g.n && (#[trigger] sd[v]) is Some implies g.reaches(
                    all_zero(g.n),
                    v,
                    sd[v].unwrap() as int,
                    None,
                ) by {
                    assert(g.reaches(all_zero(g.n), v, d[v] as int, None));
                }
                g.lemma_potential_no_negative_cycle(d);
            }
            return Ok(dist);
        }
        r += 1;
    }
    Err(())
}

} // verus!
