//! Graphs carrying a price (potential) function, and hop-bounded shortest paths
//! that mix Dijkstra passes with relaxations of negative edges.
pub mod finding_sandwich;
pub mod sandwiches_to_r_remoteness;

use vstd::prelude::*;
use crate::paths::{
    GraphModel, Step, abs, all_zero, attained_from, dists, hops, improves, improves_o, ints,
    lemma_improves_o_dists, lemma_improves_trans, lemma_max_abs, lemma_max_abs_le, max_abs, negated,
    somes, within, sums_prices,
};
use crate::standard_algorithms::{
    BorrowedWeightedGraph, attach, dijkstra_with_origins, filled, with_zero_origins, without_origins,
};

verus! {

/// `new` is `old` with the weight of each edge `u -> v` moved by `q[u] - q[v]`.
pub open spec fn rows_shifted_p(
    old: Seq<Seq<(usize, i64)>>,
    new: Seq<Seq<(usize, i64)>>,
    q: Seq<int>,
) -> bool {
    &&& new.len() == old.len()
    &&& forall|u: int| 0 <= u < old.len() ==> (#[trigger] new[u]).len() == old[u].len()
    &&& forall|u: int, j: int|
        0 <= u < old.len() && 0 <= j < old[u].len() ==> {
            &&& (#[trigger] new[u][j]).0 == old[u][j].0
            &&& new[u][j].1 == old[u][j].1 + q[u] - q[old[u][j].0 as int]
        }
}

pub open spec fn rows_shifted_n(
    old: Seq<Seq<(usize, i64, bool)>>,
    new: Seq<Seq<(usize, i64, bool)>>,
    q: Seq<int>,
) -> bool {
    &&& new.len() == old.len()
    &&& forall|u: int| 0 <= u < old.len() ==> (#[trigger] new[u]).len() == old[u].len()
    &&& forall|u: int, j: int|
        0 <= u < old.len() && 0 <= j < old[u].len() ==> {
            &&& (#[trigger] new[u][j]).0 == old[u][j].0
            &&& new[u][j].2 == old[u][j].2
            &&& new[u][j].1 == old[u][j].1 + q[u] - q[old[u][j].0 as int]
        }
}

/// The amount added to the weight of `u -> v`: `p[u] - p[v]`, or `p[v] - p[u]`
/// for rows that store reversed edges.
pub open spec fn delta(p: Seq<i64>, rev: bool, u: int, v: int) -> int {
    if rev {
        p[v] - p[u]
    } else {
        p[u] - p[v]
    }
}

/// `ints(p)`, negated for reversed rows.
pub open spec fn signed(p: Seq<i64>, rev: bool) -> Seq<int> {
    if rev {
        negated(ints(p))
    } else {
        ints(p)
    }
}

/// Shifting the rows by `p` stays inside `i64` (the difference and the new weight).
pub open spec fn fits_p(rows: Seq<Seq<(usize, i64)>>, p: Seq<i64>, rev: bool) -> bool {
    forall|u: int, j: int|
        0 <= u < rows.len() && 0 <= j < rows[u].len() ==> {
            let d = delta(p, rev, u, (#[trigger] rows[u][j]).0 as int);
            &&& i64::MIN <= d <= i64::MAX
            &&& i64::MIN <= rows[u][j].1 + d <= i64::MAX
        }
}

pub open spec fn fits_n(rows: Seq<Seq<(usize, i64, bool)>>, p: Seq<i64>, rev: bool) -> bool {
    forall|u: int, j: int|
        0 <= u < rows.len() && 0 <= j < rows[u].len() ==> {
            let d = delta(p, rev, u, (#[trigger] rows[u][j]).0 as int);
            &&& i64::MIN <= d <= i64::MAX
            &&& i64::MIN <= rows[u][j].1 + d <= i64::MAX
        }
}

/// The shifted rows keep non-negative weights.
pub open spec fn keeps_nonneg(rows: Seq<Seq<(usize, i64)>>, p: Seq<i64>, rev: bool) -> bool {
    forall|u: int, j: int|
        0 <= u < rows.len() && 0 <= j < rows[u].len() ==> (#[trigger] rows[u][j]).1 + delta(
            p,
            rev,
            u,
            rows[u][j].0 as int,
        ) >= 0
}

pub open spec fn rows_below_p(rows: Seq<Seq<(usize, i64)>>, n: int) -> bool {
    forall|u: int, j: int| 0 <= u < rows.len() && 0 <= j < rows[u].len() ==> (#[trigger] rows[u][j]).0 < n
}

pub open spec fn rows_below_n(rows: Seq<Seq<(usize, i64, bool)>>, n: int) -> bool {
    forall|u: int, j: int| 0 <= u < rows.len() && 0 <= j < rows[u].len() ==> (#[trigger] rows[u][j]).0 < n
}

pub open spec fn rows_nonneg(rows: Seq<Seq<(usize, i64)>>) -> bool {
    forall|u: int, j: int| 0 <= u < rows.len() && 0 <= j < rows[u].len() ==> (#[trigger] rows[u][j]).1 >= 0
}

/// Adds `p[u] - p[v]` (or `p[v] - p[u]` when `rev`) to every edge `u -> v` of `rows`.
fn shift_rows_p(rows: &mut Vec<Vec<(usize, i64)>>, p: &[i64], rev: bool)
    requires
        old(rows)@.len() <= p@.len(),
        rows_below_p(old(rows)@.map_values(|r: Vec<(usize, i64)>| r@), p@.len() as int),
        fits_p(old(rows)@.map_values(|r: Vec<(usize, i64)>| r@), p@, rev),
    ensures
        rows_shifted_p(
            old(rows)@.map_values(|r: Vec<(usize, i64)>| r@),
            final(rows)@.map_values(|r: Vec<(usize, i64)>| r@),
            signed(p@, rev),
        ),
{
    let ghost old_rows = rows@.map_values(|r: Vec<(usize, i64)>| r@);
    let ghost q = signed(p@, rev);
    let mut u: usize = 0;
    while u < rows.len()
        invariant
            u <= rows@.len(),
            rows@.len() == old_rows.len(),
            old_rows.len() <= p@.len(),
            q == signed(p@, rev),
            rows_below_p(old_rows, p@.len() as int),
            fits_p(old_rows, p@, rev),
            forall|x: int| u <= x < rows@.len() ==> (#[trigger] rows@[x])@ == old_rows[x],
            forall|x: int| 0 <= x < u ==> (#[trigger] rows@[x])@.len() == old_rows[x].len(),
            forall|x: int, j: int|
                0 <= x < u && 0 <= j < old_rows[x].len() ==> {
                    &&& (#[trigger] rows@[x]@[j]).0 == old_rows[x][j].0
                    &&& rows@[x]@[j].1 == old_rows[x][j].1 + q[x] - q[old_rows[x][j].0 as int]
                },
        decreases old_rows.len() - u,
    {
        let mut j: usize = 0;
        let len = rows[u].len();
        let ghost rows_before = rows@;
        while j < len
            invariant
                u < rows@.len(),
                rows@.len() == old_rows.len(),
                old_rows.len() <= p@.len(),
                q == signed(p@, rev),
                rows_below_p(old_rows, p@.len() as int),
                fits_p(old_rows, p@, rev),
                len == old_rows[u as int].len(),
                j <= len,
                forall|x: int| 0 <= x < rows@.len() && x != u ==> #[trigger] rows@[x] == rows_before[x],
                rows@[u as int]@.len() == len,
                forall|jj: int| j <= jj < len ==> #[trigger] rows@[u as int]@[jj] == old_rows[u as int][jj],
                forall|jj: int|
                    0 <= jj < j ==> {
                        &&& (#[trigger] rows@[u as int]@[jj]).0 == old_rows[u as int][jj].0
                        &&& rows@[u as int]@[jj].1 == old_rows[u as int][jj].1 + q[u as int]
                            - q[old_rows[u as int][jj].0 as int]
                    },
            decreases len - j,
        {
            let (v, w) = rows[u][j];
            proof {
                assert(old_rows[u as int][j as int] == (v, w));
                assert(v < p@.len());
            }
            let d = if rev {
                p[v] - p[u]
            } else {
                p[u] - p[v]
            };
            rows[u].set(j, (v, w + d));
            j += 1;
        }
        u += 1;
    }
    proof {
        let new_rows = rows@.map_values(|r: Vec<(usize, i64)>| r@);
        assert forall|x: int, j: int|
            0 <= x < old_rows.len() && 0 <= j < old_rows[x].len() implies {
                &&& (#[trigger] new_rows[x][j]).0 == old_rows[x][j].0
                &&& new_rows[x][j].1 == old_rows[x][j].1 + q[x] - q[old_rows[x][j].0 as int]
            } by {
            assert(new_rows[x] == rows@[x]@);
        }
    }
}

/// As `shift_rows_p`, for rows of flagged negative edges (flags are kept).
fn shift_rows_n(rows: &mut Vec<Vec<(usize, i64, bool)>>, p: &[i64], rev: bool)
    requires
        old(rows)@.len() <= p@.len(),
        rows_below_n(old(rows)@.map_values(|r: Vec<(usize, i64, bool)>| r@), p@.len() as int),
        fits_n(old(rows)@.map_values(|r: Vec<(usize, i64, bool)>| r@), p@, rev),
    ensures
        rows_shifted_n(
            old(rows)@.map_values(|r: Vec<(usize, i64, bool)>| r@),
            final(rows)@.map_values(|r: Vec<(usize, i64, bool)>| r@),
            signed(p@, rev),
        ),
{
    let ghost old_rows = rows@.map_values(|r: Vec<(usize, i64, bool)>| r@);
    let ghost q = signed(p@, rev);
    let mut u: usize = 0;
    while u < rows.len()
        invariant
            u <= rows@.len(),
            rows@.len() == old_rows.len(),
            old_rows.len() <= p@.len(),
            q == signed(p@, rev),
            rows_below_n(old_rows, p@.len() as int),
            fits_n(old_rows, p@, rev),
            forall|x: int| u <= x < rows@.len() ==> (#[trigger] rows@[x])@ == old_rows[x],
            forall|x: int| 0 <= x < u ==> (#[trigger] rows@[x])@.len() == old_rows[x].len(),
            forall|x: int, j: int|
                0 <= x < u && 0 <= j < old_rows[x].len() ==> {
                    &&& (#[trigger] rows@[x]@[j]).0 == old_rows[x][j].0
                    &&& rows@[x]@[j].2 == old_rows[x][j].2
                    &&& rows@[x]@[j].1 == old_rows[x][j].1 + q[x] - q[old_rows[x][j].0 as int]
                },
        decreases old_rows.len() - u,
    {
        let mut j: usize = 0;
        let len = rows[u].len();
        let ghost rows_before = rows@;
        while j < len
            invariant
                u < rows@.len(),
                rows@.len() == old_rows.len(),
                old_rows.len() <= p@.len(),
                q == signed(p@, rev),
                rows_below_n(old_rows, p@.len() as int),
                fits_n(old_rows, p@, rev),
                len == old_rows[u as int].len(),
                j <= len,
                forall|x: int| 0 <= x < rows@.len() && x != u ==> #[trigger] rows@[x] == rows_before[x],
                rows@[u as int]@.len() == len,
                forall|jj: int| j <= jj < len ==> #[trigger] rows@[u as int]@[jj] == old_rows[u as int][jj],
                forall|jj: int|
                    0 <= jj < j ==> {
                        &&& (#[trigger] rows@[u as int]@[jj]).0 == old_rows[u as int][jj].0
                        &&& rows@[u as int]@[jj].2 == old_rows[u as int][jj].2
                        &&& rows@[u as int]@[jj].1 == old_rows[u as int][jj].1 + q[u as int]
                            - q[old_rows[u as int][jj].0 as int]
                    },
            decreases len - j,
        {
            let (v, w, t) = rows[u][j];
            proof {
                assert(old_rows[u as int][j as int] == (v, w, t));
                assert(v < p@.len());
            }
            let d = if rev {
                p[v] - p[u]
            } else {
                p[u] - p[v]
            };
            rows[u].set(j, (v, w + d, t));
            j += 1;
        }
        u += 1;
    }
    proof {
        let new_rows = rows@.map_values(|r: Vec<(usize, i64, bool)>| r@);
        assert forall|x: int, j: int|
            0 <= x < old_rows.len() && 0 <= j < old_rows[x].len() implies {
                &&& (#[trigger] new_rows[x][j]).0 == old_rows[x][j].0
                &&& new_rows[x][j].2 == old_rows[x][j].2
                &&& new_rows[x][j].1 == old_rows[x][j].1 + q[x] - q[old_rows[x][j].0 as int]
            } by {
            assert(new_rows[x] == rows@[x]@);
        }
    }
}

/// A graph split into non-negative edges and flagged negative edges, stored both
/// forwards and reversed (`pedges_rev[v]` holds `(u, w)` for an edge `u -> v`),
/// together with the price accumulated so far.
#[derive(Debug, Clone)]
pub struct PricedGraph {
    pub n: usize,
    pub pedges: Vec<Vec<(usize, i64)>>,
    pub pedges_rev: Vec<Vec<(usize, i64)>>,
    pub nedges: Vec<Vec<(usize, i64, bool)>>,
    pub nedges_rev: Vec<Vec<(usize, i64, bool)>>,
    pub prices: Vec<i64>,
}

impl PricedGraph {
    /// The forward graph.
    pub open spec fn model(&self) -> GraphModel {
        GraphModel {
            n: self.n as nat,
            pedges: self.pedges@.map_values(|r: Vec<(usize, i64)>| r@),
            nedges: self.nedges@.map_values(|r: Vec<(usize, i64, bool)>| r@),
        }
    }

    /// The reversed graph.
    pub open spec fn model_rev(&self) -> GraphModel {
        GraphModel {
            n: self.n as nat,
            pedges: self.pedges_rev@.map_values(|r: Vec<(usize, i64)>| r@),
            nedges: self.nedges_rev@.map_values(|r: Vec<(usize, i64, bool)>| r@),
        }
    }

    /// One row per vertex everywhere, one price per vertex, every edge inside
    /// `0..n`, and the non-negative edges (both directions) really non-negative.
    pub open spec fn well_formed(&self) -> bool {
        &&& self.shape_ok()
        &&& self.model().pedges_nonneg()
        &&& self.model_rev().pedges_nonneg()
    }

    /// One row per vertex everywhere, one price per vertex, and every edge inside
    /// `0..n` (the weights aside).
    pub open spec fn shape_ok(&self) -> bool {
        &&& self.pedges@.len() == self.n
        &&& self.pedges_rev@.len() == self.n
        &&& self.nedges@.len() == self.n
        &&& self.nedges_rev@.len() == self.n
        &&& self.prices@.len() == self.n
        &&& self.model().wf()
        &&& self.model_rev().wf()
    }

    /// Applying the price `p` stays inside `i64` everywhere.
    pub open spec fn price_fits(&self, p: Seq<i64>) -> bool {
        &&& fits_p(self.model().pedges, p, false)
        &&& fits_n(self.model().nedges, p, false)
        &&& fits_p(self.model_rev().pedges, p, true)
        &&& fits_n(self.model_rev().nedges, p, true)
        &&& forall|u: int|
            0 <= u < self.prices@.len() ==> i64::MIN <= #[trigger] self.prices@[u] + p[u] <= i64::MAX
    }

    /// The price `p` keeps every non-negative edge non-negative (in both directions).
    pub open spec fn price_keeps_nonneg(&self, p: Seq<i64>) -> bool {
        &&& keeps_nonneg(self.model().pedges, p, false)
        &&& keeps_nonneg(self.model_rev().pedges, p, true)
    }

    /// `other` is this graph under the price `q`: each forward edge `u -> v` moved by
    /// `q[u] - q[v]` (the reversed copies accordingly) and `q` added to the prices.
    pub open spec fn repriced_to(&self, other: PricedGraph, q: Seq<int>) -> bool {
        &&& other.n == self.n
        &&& self.model().repriced(other.model(), q)
        &&& self.model_rev().repriced(other.model_rev(), negated(q))
        &&& other.prices@.len() == self.prices@.len()
        &&& forall|u: int| 0 <= u < self.prices@.len() ==> #[trigger] other.prices@[u] == self.prices@[u] + q[u]
    }

    /// The forward graph, borrowed.
    pub fn as_borrowed(&self) -> (g: BorrowedWeightedGraph<'_>)
        ensures
            g@ == self.model(),
            g.n == self.n,
    {
        BorrowedWeightedGraph { n: self.n, pedges: &self.pedges, nedges: &self.nedges }
    }

    /// The reversed graph, borrowed.
    pub fn as_borrowed_rev(&self) -> (g: BorrowedWeightedGraph<'_>)
        ensures
            g@ == self.model_rev(),
            g.n == self.n,
    {
        BorrowedWeightedGraph { n: self.n, pedges: &self.pedges_rev, nedges: &self.nedges_rev }
    }
}

/// `-x` for every `x` of `p` (meaningful when no entry is `i64::MIN`).
pub open spec fn negs(p: Seq<i64>) -> Seq<i64> {
    p.map_values(|x: i64| (-x) as i64)
}

/// Every edge of `rows` targets a vertex below `n`, and, when `nonneg`, has
/// non-negative weight.
fn rows_ok_p(rows: &Vec<Vec<(usize, i64)>>, n: usize, nonneg: bool) -> (ok: bool)
    ensures
        ok == (rows_below_p(rows@.map_values(|r: Vec<(usize, i64)>| r@), n as int) && (nonneg
            ==> rows_nonneg(rows@.map_values(|r: Vec<(usize, i64)>| r@)))),
{
    let ghost m = rows@.map_values(|r: Vec<(usize, i64)>| r@);
    let mut u: usize = 0;
    while u < rows.len()
        invariant
            u <= rows@.len(),
            m == rows@.map_values(|r: Vec<(usize, i64)>| r@),
            forall|x: int, j: int|
                0 <= x < u && 0 <= j < m[x].len() ==> (#[trigger] m[x][j]).0 < n && (nonneg ==> m[x][j].1 >= 0),
        decreases rows@.len() - u,
    {
        let mut j: usize = 0;
        while j < rows[u].len()
            invariant
                u < rows@.len(),
                j <= m[u as int].len(),
                m == rows@.map_values(|r: Vec<(usize, i64)>| r@),
                forall|x: int, jj: int|
                    0 <= x < u && 0 <= jj < m[x].len() ==> (#[trigger] m[x][jj]).0 < n && (nonneg ==> m[x][jj].1 >= 0),
                forall|jj: int| 0 <= jj < j ==> (#[trigger] m[u as int][jj]).0 < n && (nonneg ==> m[u as int][jj].1 >= 0),
            decreases m[u as int].len() - j,
        {
            let (v, w) = rows[u][j];
            proof {
                assert(m[u as int][j as int] == (v, w));
            }
            if v >= n || (nonneg && w < 0) {
                return false;
            }
            j += 1;
        }
        u += 1;
    }
    true
}

fn rows_ok_n(rows: &Vec<Vec<(usize, i64, bool)>>, n: usize) -> (ok: bool)
    ensures
        ok == rows_below_n(rows@.map_values(|r: Vec<(usize, i64, bool)>| r@), n as int),
{
    let ghost m = rows@.map_values(|r: Vec<(usize, i64, bool)>| r@);
    let mut u: usize = 0;
    while u < rows.len()
        invariant
            u <= rows@.len(),
            m == rows@.map_values(|r: Vec<(usize, i64, bool)>| r@),
            forall|x: int, j: int| 0 <= x < u && 0 <= j < m[x].len() ==> (#[trigger] m[x][j]).0 < n,
        decreases rows@.len() - u,
    {
        let mut j: usize = 0;
        while j < rows[u].len()
            invariant
                u < rows@.len(),
                j <= m[u as int].len(),
                m == rows@.map_values(|r: Vec<(usize, i64, bool)>| r@),
                forall|x: int, jj: int| 0 <= x < u && 0 <= jj < m[x].len() ==> (#[trigger] m[x][jj]).0 < n,
                forall|jj: int| 0 <= jj < j ==> (#[trigger] m[u as int][jj]).0 < n,
            decreases m[u as int].len() - j,
        {
            let (v, _, _) = rows[u][j];
            proof {
                assert(m[u as int][j as int].0 == v);
            }
            if v >= n {
                return false;
            }
            j += 1;
        }
        u += 1;
    }
    true
}

impl PricedGraph {
    /// The consistency check of a priced graph; it is only called on one.
    pub fn sanity_check(&self)
        requires
            self.well_formed(),
    {
        let ok = self.is_well_formed();
        assert(ok);
    }

    /// Whether the graph is well formed: all rows and prices sized `n`, all edges
    /// inside `0..n`, and the non-negative edges (both directions) non-negative.
    pub fn is_well_formed(&self) -> (ok: bool)
        ensures
            ok == self.well_formed(),
    {
        let n = self.n;
        if self.pedges.len() != n || self.pedges_rev.len() != n || self.nedges.len() != n
            || self.nedges_rev.len() != n || self.prices.len() != n {
            return false;
        }
        let a = rows_ok_p(&self.pedges, n, true);
        let b = rows_ok_p(&self.pedges_rev, n, true);
        let c = rows_ok_n(&self.nedges, n);
        let d = rows_ok_n(&self.nedges_rev, n);
        a && b && c && d
    }

    /// Applies the price `p`: every edge `u -> v` gains `p[u] - p[v]` (its reversed
    /// copy likewise) and `p` is added to the stored prices.  The non-negative
    /// lists must hold non-negative weights afterwards, not before.
    pub fn apply_price(&mut self, p: &[i64])
        requires
            old(self).shape_ok(),
            p@.len() >= old(self).n,
            old(self).price_fits(p@),
            old(self).price_keeps_nonneg(p@),
        ensures
            final(self).well_formed(),
            old(self).repriced_to(*final(self), ints(p@)),
    {
        let ghost g0 = *self;
        shift_rows_p(&mut self.pedges, p, false);
        shift_rows_n(&mut self.nedges, p, false);
        shift_rows_p(&mut self.pedges_rev, p, true);
        shift_rows_n(&mut self.nedges_rev, p, true);
        let n = self.n;
        let mut u: usize = 0;
        while u < n
            invariant
                n == self.n,
                n == g0.n,
                u <= n,
                g0.shape_ok(),
                g0.price_fits(p@),
                p@.len() >= n,
                self.prices@.len() == n,
                forall|x: int| u <= x < n ==> #[trigger] self.prices@[x] == g0.prices@[x],
                forall|x: int| 0 <= x < u ==> #[trigger] self.prices@[x] == g0.prices@[x] + p@[x],
                rows_shifted_p(g0.model().pedges, self.model().pedges, ints(p@)),
                rows_shifted_n(g0.model().nedges, self.model().nedges, ints(p@)),
                rows_shifted_p(g0.model_rev().pedges, self.model_rev().pedges, negated(ints(p@))),
                rows_shifted_n(g0.model_rev().nedges, self.model_rev().nedges, negated(ints(p@))),
            decreases n - u,
        {
            let x = self.prices[u] + p[u];
            self.prices.set(u, x);
            u += 1;
        }
        proof {
            let q = ints(p@);
            let nq = negated(q);
            assert forall|x: int| 0 <= x < n implies #[trigger] q[x] == p@[x] && nq[x] == -p@[x] by {}
            let m0 = g0.model();
            let m1 = self.model();
            let r0 = g0.model_rev();
            let r1 = self.model_rev();
            assert forall|uu: int, jj: int|
                0 <= uu < m1.n && 0 <= jj < m1.pedges[uu].len() implies #[trigger] m1.pedges[uu][jj].0 < m1.n by {
                assert(m1.pedges[uu][jj].0 == m0.pedges[uu][jj].0);
            }
            assert forall|uu: int, jj: int|
                0 <= uu < m1.n && 0 <= jj < m1.nedges[uu].len() implies #[trigger] m1.nedges[uu][jj].0 < m1.n by {
                assert(m1.nedges[uu][jj].0 == m0.nedges[uu][jj].0);
            }
            assert forall|uu: int, jj: int|
                0 <= uu < r1.n && 0 <= jj < r1.pedges[uu].len() implies #[trigger] r1.pedges[uu][jj].0 < r1.n by {
                assert(r1.pedges[uu][jj].0 == r0.pedges[uu][jj].0);
            }
            assert forall|uu: int, jj: int|
                0 <= uu < r1.n && 0 <= jj < r1.nedges[uu].len() implies #[trigger] r1.nedges[uu][jj].0 < r1.n by {
                assert(r1.nedges[uu][jj].0 == r0.nedges[uu][jj].0);
            }
            assert forall|uu: int, jj: int|
                0 <= uu < m1.pedges.len() && 0 <= jj < m1.pedges[uu].len() implies #[trigger] m1.pedges[uu][jj].1 >= 0 by {
                assert(m0.pedges[uu][jj].0 < n);
                assert(m0.pedges[uu][jj] == m0.pedges[uu][jj]);
            }
            assert forall|uu: int, jj: int|
                0 <= uu < r1.pedges.len() && 0 <= jj < r1.pedges[uu].len() implies #[trigger] r1.pedges[uu][jj].1 >= 0 by {
                assert(r0.pedges[uu][jj].0 < n);
                assert(r0.pedges[uu][jj] == r0.pedges[uu][jj]);
            }
        }
    }

    /// Removes the price `p` again: applies `-p`.
    pub fn unapply_price(&mut self, p: &[i64])
        requires
            old(self).well_formed(),
            p@.len() >= old(self).n,
            forall|i: int| 0 <= i < p@.len() ==> #[trigger] p@[i] > i64::MIN,
            old(self).price_fits(negs(p@)),
            old(self).price_keeps_nonneg(negs(p@)),
        ensures
            final(self).well_formed(),
            old(self).repriced_to(*final(self), negated(ints(p@))),
    {
        let mut p_neg: Vec<i64> = Vec::new();
        let mut i: usize = 0;
        while i < p.len()
            invariant
                i <= p@.len(),
                forall|k: int| 0 <= k < p@.len() ==> #[trigger] p@[k] > i64::MIN,
                p_neg@ == negs(p@.take(i as int)),
            decreases p@.len() - i,
        {
            p_neg.push(-p[i]);
            i += 1;
            assert(negs(p@.take(i as int)) =~= negs(p@.take(i - 1)).push((-p@[i - 1]) as i64));
        }
        proof {
            assert(p@.take(p@.len() as int) =~= p@);
            assert(ints(p_neg@) =~= negated(ints(p@)));
        }
        self.apply_price(p_neg.as_slice());
    }
}

impl PricedGraph {
    /// Removing a price undoes applying it: the graph (both directions) and the
    /// stored prices come back unchanged.
    pub proof fn lemma_unapply_undoes_apply(g0: PricedGraph, g1: PricedGraph, g2: PricedGraph, q: Seq<int>)
        requires
            g0.shape_ok(),
            q.len() >= g0.n,
            g0.repriced_to(g1, q),
            g1.repriced_to(g2, negated(q)),
        ensures
            g2.model() == g0.model(),
            g2.model_rev() == g0.model_rev(),
            g2.prices@ == g0.prices@,
    {
        g0.model().lemma_reprice_undo(g1.model(), g2.model(), q);
        assert(negated(negated(q)) =~= q);
        let nq = negated(q);
        assert(nq.len() >= g0.n);
        g0.model_rev().lemma_reprice_undo(g1.model_rev(), g2.model_rev(), nq);
        assert(g2.prices@ =~= g0.prices@);
    }

    /// Applying the price `p` and then `q` gives what applying `p + q` gives: the
    /// same graph in both directions and the same stored prices.
    pub proof fn lemma_apply_twice(
        g0: PricedGraph,
        g1: PricedGraph,
        g2: PricedGraph,
        g3: PricedGraph,
        p: Seq<int>,
        q: Seq<int>,
        pq: Seq<int>,
    )
        requires
            g0.shape_ok(),
            sums_prices(g0.n as int, p, q, pq),
            g0.repriced_to(g1, p),
            g1.repriced_to(g2, q),
            g0.repriced_to(g3, pq),
        ensures
            g2.model() == g3.model(),
            g2.model_rev() == g3.model_rev(),
            g2.prices@ == g3.prices@,
    {
        g0.model().lemma_reprice_compose(g1.model(), g2.model(), p, q, pq);
        g0.model().lemma_reprice_unique(g2.model(), g3.model(), pq);
        let np = negated(p);
        let nq = negated(q);
        let npq = negated(pq);
        assert(sums_prices(g0.n as int, np, nq, npq));
        g0.model_rev().lemma_reprice_compose(g1.model_rev(), g2.model_rev(), np, nq, npq);
        g0.model_rev().lemma_reprice_unique(g2.model_rev(), g3.model_rev(), npq);
        assert(g2.prices@ =~= g3.prices@);
    }
}

/// Copies the labels.
fn copy_labels(dist: &Vec<Option<(i64, usize)>>) -> (res: Vec<Option<(i64, usize)>>)
    ensures
        res@ == dist@,
{
    let mut res: Vec<Option<(i64, usize)>> = Vec::new();
    let mut i: usize = 0;
    while i < dist.len()
        invariant
            i <= dist@.len(),
            res@ == dist@.take(i as int),
        decreases dist@.len() - i,
    {
        res.push(dist[i]);
        i += 1;
        assert(res@ =~= dist@.take(i as int));
    }
    assert(dist@.take(dist@.len() as int) =~= dist@);
    res
}

/// Relaxes the active negative edges out of `u` (label `(d, o)` in `dist`) into `ndist`.
fn relax_vertex_negative(
    graph: BorrowedWeightedGraph<'_>,
    dist: &Vec<Option<(i64, usize)>>,
    ndist: &mut Vec<Option<(i64, usize)>>,
    u: usize,
    d: i64,
    o: usize,
    relaxed: bool,
    Ghost(wit): Ghost<int>,
    Ghost(a): Ghost<int>,
    Ghost(w_max): Ghost<int>,
) -> (res: (bool, Ghost<int>))
    requires
        graph@.wf(),
        u < graph.n,
        dist@.len() == graph.n,
        old(ndist)@.len() == graph.n,
        dist@[u as int] == Some((d, o)),
        -a <= d <= a,
        a + w_max <= i64::MAX,
        forall|uu: int, jj: int|
            0 <= uu < graph@.nedges.len() && 0 <= jj < graph@.nedges[uu].len() ==> abs(
                (#[trigger] graph@.nedges[uu][jj]).1 as int,
            ) <= w_max,
        forall|v: int|
            0 <= v < graph.n && (#[trigger] old(ndist)@[v]) is Some ==> -(a + w_max) <= old(ndist)@[v].unwrap().0
                <= a + w_max,
        improves_o(dist@, old(ndist)@),
        attained_from(graph@, dist@, old(ndist)@, 1),
        !relaxed ==> old(ndist)@ == dist@,
        relaxed ==> 0 <= wit < graph.n && old(ndist)@[wit] is Some && (dist@[wit] is None || old(
            ndist,
        )@[wit].unwrap().0 < dist@[wit].unwrap().0),
    ensures
        final(ndist)@.len() == graph.n,
        forall|v: int|
            0 <= v < graph.n && (#[trigger] final(ndist)@[v]) is Some ==> -(a + w_max)
                <= final(ndist)@[v].unwrap().0 <= a + w_max,
        improves_o(dist@, final(ndist)@),
        improves_o(old(ndist)@, final(ndist)@),
        forall|jj: int|
            0 <= jj < graph@.nedges[u as int].len() && #[trigger] graph@.nedges[u as int][jj].2
                ==> final(ndist)@[graph@.nedges[u as int][jj].0 as int] is Some
                && final(ndist)@[graph@.nedges[u as int][jj].0 as int].unwrap().0 <= d
                + graph@.nedges[u as int][jj].1,
        attained_from(graph@, dist@, final(ndist)@, 1),
        !res.0 ==> final(ndist)@ == dist@,
        res.0 ==> 0 <= res.1@ < graph.n && final(ndist)@[res.1@] is Some && (dist@[res.1@] is None
            || final(ndist)@[res.1@].unwrap().0 < dist@[res.1@].unwrap().0),
{
    let ghost g = graph@;
    let ghost nd0 = ndist@;
    let ghost mut wit = wit;
    let mut relaxed = relaxed;
    let row = &graph.nedges[u];
    let mut j: usize = 0;
    while j < row.len()
        invariant
            g == graph@,
            g.wf(),
            u < g.n,
            row@ == g.nedges[u as int],
            j <= row@.len(),
            dist@.len() == g.n,
            ndist@.len() == g.n,
            nd0.len() == g.n,
            dist@[u as int] == Some((d, o)),
            -a <= d <= a,
            a + w_max <= i64::MAX,
            forall|uu: int, jj: int|
                0 <= uu < g.nedges.len() && 0 <= jj < g.nedges[uu].len() ==> abs(
                    (#[trigger] g.nedges[uu][jj]).1 as int,
                ) <= w_max,
            forall|v: int|
                0 <= v < g.n && (#[trigger] ndist@[v]) is Some ==> -(a + w_max) <= ndist@[v].unwrap().0
                    <= a + w_max,
            improves_o(dist@, ndist@),
            improves_o(nd0, ndist@),
            forall|jj: int|
                0 <= jj < j && #[trigger] g.nedges[u as int][jj].2 ==> ndist@[g.nedges[u as int][jj].0 as int] is Some
                    && ndist@[g.nedges[u as int][jj].0 as int].unwrap().0 <= d + g.nedges[u as int][jj].1,
            attained_from(g, dist@, ndist@, 1),
            !relaxed ==> ndist@ == dist@,
            relaxed ==> 0 <= wit < g.n && ndist@[wit] is Some && (dist@[wit] is None
                || ndist@[wit].unwrap().0 < dist@[wit].unwrap().0),
        decreases row@.len() - j,
    {
        let (v, w, t) = row[j];
        proof {
            assert(g.nedges[u as int][j as int] == (v, w, t));
            assert(v < g.n);
            assert(abs(w as int) <= w_max);
        }
        if t {
            let cand = d + w;
            let better = match ndist[v] {
                None => true,
                Some((d2, _)) => cand < d2,
            };
            if better {
                proof {
                    assert(g.step_ok(u as int, (true, j as int)));
                    g.lemma_reaches_from_start(dist@, u as int, Some(0));
                    g.lemma_reaches_from_step(dist@, u as int, d as int, o, 0, (true, j as int));
                    if !relaxed {
                        wit = v as int;
                    }
                }
                let ghost before = ndist@;
                ndist.set(v, Some((cand, o)));
                relaxed = true;
                proof {
                    if wit != v {
                        assert(before[wit] is Some);
                    }
                    if dist@[v as int] is Some {
                        assert(before[v as int] is Some);
                    }
                }
            }
        }
        j += 1;
    }
    (relaxed, Ghost(wit))
}

/// One relaxation of every active negative edge out of the labels `dist` (read
/// from `dist`, written into a copy).  Returns the new labels and whether any
/// label improved.
fn relax_negative_edges(graph: BorrowedWeightedGraph<'_>, dist: &Vec<Option<(i64, usize)>>) -> (res: (
    Vec<Option<(i64, usize)>>,
    bool,
))
    requires
        graph@.wf(),
        dist@.len() == graph.n,
        max_abs(dists(dist@)) + graph@.weight_bound() <= i64::MAX,
    ensures
        res.0@.len() == graph.n,
        improves_o(dist@, res.0@),
        graph@.closed_n(dists(dist@), dists(res.0@)),
        attained_from(graph@, dist@, res.0@, 1),
        max_abs(dists(res.0@)) <= max_abs(dists(dist@)) + graph@.weight_bound(),
        !res.1 ==> res.0@ == dist@,
        res.1 ==> exists|v: int|
            0 <= v < graph.n && (#[trigger] res.0@[v]) is Some && (dist@[v] is None || res.0@[v].unwrap().0
                < dist@[v].unwrap().0),
{
    let n = graph.n;
    let ghost g = graph@;
    let ghost a = max_abs(dists(dist@)) as int;
    let ghost w_max = g.weight_bound() as int;
    proof {
        lemma_max_abs(dists(dist@));
        g.lemma_weight_bounds();
        g.lemma_attained_self(dist@, 1);
        assert forall|v: int| 0 <= v < n && (#[trigger] dist@[v]) is Some implies -a <= dist@[v].unwrap().0 <= a by {
            assert(dists(dist@)[v] == Some(dist@[v].unwrap().0));
        }
    }
    let mut ndist = copy_labels(dist);
    let mut relaxed = false;
    let ghost mut wit: int = 0;
    let mut u: usize = 0;
    while u < n
        invariant
            g == graph@,
            g.wf(),
            n == g.n,
            u <= n,
            dist@.len() == n,
            ndist@.len() == n,
            w_max == g.weight_bound(),
            a + w_max <= i64::MAX,
            forall|uu: int, jj: int|
                0 <= uu < g.nedges.len() && 0 <= jj < g.nedges[uu].len() ==> abs(
                    (#[trigger] g.nedges[uu][jj]).1 as int,
                ) <= w_max,
            forall|v: int| 0 <= v < n && (#[trigger] dist@[v]) is Some ==> -a <= dist@[v].unwrap().0 <= a,
            forall|v: int|
                0 <= v < n && (#[trigger] ndist@[v]) is Some ==> -(a + w_max) <= ndist@[v].unwrap().0 <= a
                    + w_max,
            improves_o(dist@, ndist@),
            forall|x: int, j: int|
                0 <= x < u && 0 <= j < g.nedges[x].len() && (#[trigger] dist@[x]) is Some
                    && #[trigger] g.nedges[x][j].2 ==> ndist@[g.nedges[x][j].0 as int] is Some
                    && ndist@[g.nedges[x][j].0 as int].unwrap().0 <= dist@[x].unwrap().0
                    + g.nedges[x][j].1,
            attained_from(g, dist@, ndist@, 1),
            !relaxed ==> ndist@ == dist@,
            relaxed ==> 0 <= wit < n && ndist@[wit] is Some && (dist@[wit] is None
                || ndist@[wit].unwrap().0 < dist@[wit].unwrap().0),
        decreases n - u,
    {
        match dist[u] {
            Some((d, o)) => {
                let ghost before = ndist@;
                let (r, Ghost(wv)) = relax_vertex_negative(
                    graph,
                    dist,
                    &mut ndist,
                    u,
                    d,
                    o,
                    relaxed,
                    Ghost(wit),
                    Ghost(a),
                    Ghost(w_max),
                );
                relaxed = r;
                proof {
                    wit = wv;
                    assert forall|x: int, jj: int|
                        0 <= x < u + 1 && 0 <= jj < g.nedges[x].len() && (#[trigger] dist@[x]) is Some
                            && #[trigger] g.nedges[x][jj].2 implies ndist@[g.nedges[x][jj].0 as int] is Some
                            && ndist@[g.nedges[x][jj].0 as int].unwrap().0 <= dist@[x].unwrap().0
                            + g.nedges[x][jj].1 by {
                        if x < u {
                            let t = g.nedges[x][jj].0 as int;
                            assert(before[t] is Some);
                        }
                    }
                }
            },
            None => {},
        }
        u += 1;
    }
    proof {
        let dd = dists(dist@);
        let nd = dists(ndist@);
        assert(g.closed_n(dd, nd)) by {
            assert forall|x: int, jj: int|
                0 <= x < g.n && 0 <= jj < g.nedges[x].len() && (#[trigger] dd[x]) is Some
                    && #[trigger] g.nedges[x][jj].2 implies nd[g.nedges[x][jj].0 as int] is Some
                    && nd[g.nedges[x][jj].0 as int].unwrap() <= dd[x].unwrap() + g.nedges[x][jj].1 by {
                assert(dist@[x] is Some);
                let t = g.nedges[x][jj].0 as int;
                assert(ndist@[t] is Some);
            }
        }
        assert forall|v: int| 0 <= v < nd.len() && (#[trigger] nd[v]) is Some implies abs(nd[v].unwrap() as int) <= a + w_max by {
            assert(ndist@[v] is Some);
        }
        lemma_max_abs_le(nd, a + w_max);
        if relaxed {
            assert(ndist@[wit] is Some);
        }
    }
    (ndist, relaxed)
}

/// One round: relax the negative edges, then close under the non-negative edges.
/// `k`-hop distances become `(k + 1)`-hop distances.
fn hop_round(
    graph: BorrowedWeightedGraph<'_>,
    dist: &Vec<Option<(i64, usize)>>,
    Ghost(init): Ghost<Seq<Option<(i64, usize)>>>,
    Ghost(k): Ghost<nat>,
) -> (res: (Vec<Option<(i64, usize)>>, bool))
    requires
        graph@.wf(),
        graph@.pedges_nonneg(),
        dist@.len() == graph.n,
        max_abs(dists(dist@)) + (graph.n + 1) * graph@.weight_bound() <= i64::MAX,
        attained_from(graph@, init, dist@, k),
        graph@.bounded_by_walks(dists(init), dists(dist@), Some(k)),
        graph@.closed_p(dists(dist@)),
    ensures
        res.0@.len() == graph.n,
        attained_from(graph@, init, res.0@, k + 1),
        graph@.bounded_by_walks(dists(init), dists(res.0@), Some(k + 1)),
        graph@.closed_p(dists(res.0@)),
        max_abs(dists(res.0@)) <= max_abs(dists(dist@)) + (graph.n + 1) * graph@.weight_bound(),
        !res.1 ==> res.0@ == dist@,
        !res.1 ==> graph@.closed_n(dists(dist@), dists(dist@)),
        res.1 ==> exists|v: int|
            0 <= v < graph.n && (#[trigger] res.0@[v]) is Some && (dist@[v] is None || res.0@[v].unwrap().0
                < dist@[v].unwrap().0),
{
    let ghost g = graph@;
    let ghost w = g.weight_bound() as int;
    let ghost n = graph.n as int;
    proof {
        g.lemma_weight_bounds();
        assert((n + 1) * w == n * w + w) by (nonlinear_arith);
        assert(n * g.pweight_bound() <= n * w) by (nonlinear_arith)
            requires
                n >= 0,
                g.pweight_bound() <= w,
        ;
        assert(n * w >= 0) by (nonlinear_arith)
            requires
                n >= 0,
                w >= 0,
        ;
    }
    let (ndist, relaxed) = relax_negative_edges(graph, dist);
    if !relaxed {
        proof {
            g.lemma_attained_weaken(init, dist@, k, k + 1);
            lemma_improves_o_dists(dist@, dist@);
            g.lemma_bounded_next_round(dists(init), dists(dist@), dists(dist@), k);
        }
        return (ndist, false);
    }
    let out = dijkstra_with_origins(graph, ndist);
    proof {
        lemma_improves_o_dists(dist@, ndist@);
        g.lemma_attained_chain(init, dist@, ndist@, k, 1);
        assert(attained_from(g, ndist@, out@, 0));
        g.lemma_attained_chain(init, ndist@, out@, k + 1, 0);
        g.lemma_closed_n_improves(dists(dist@), dists(ndist@), dists(out@));
        lemma_improves_trans(dists(dist@), dists(ndist@), dists(out@));
        g.lemma_bounded_next_round(dists(init), dists(dist@), dists(out@), k);
        let j = choose|v: int|
            0 <= v < graph.n && (#[trigger] ndist@[v]) is Some && (dist@[v] is None || ndist@[v].unwrap().0
                < dist@[v].unwrap().0);
        assert(dists(ndist@)[j] is Some);
        assert(out@[j] is Some);
    }
    (out, true)
}

/// Hop-bounded shortest paths with origins: from the labelled starts `dist`, the
/// shortest walks using at most `h` negative edges, each vertex labelled with the
/// origin of a start from which such a walk comes.
pub fn bellman_ford_dijkstra_up_to_h_hops_with_origins(
    graph: BorrowedWeightedGraph<'_>,
    h: usize,
    dist: Vec<Option<(i64, usize)>>,
) -> (res: Vec<Option<(i64, usize)>>)
    requires
        graph@.wf(),
        graph@.pedges_nonneg(),
        dist@.len() == graph.n,
        max_abs(dists(dist@)) + (h + 1) * ((graph.n + 1) * graph@.weight_bound()) <= i64::MAX,
    ensures
        res@.len() == graph.n,
        graph@.is_hop_dist_with_origins(dist@, res@, h as nat),
        max_abs(dists(res@)) <= max_abs(dists(dist@)) + (h + 1) * ((graph.n + 1) * graph@.weight_bound()),
{
    let ghost g = graph@;
    let ghost init = dist@;
    let ghost a = max_abs(dists(init)) as int;
    let ghost w = g.weight_bound() as int;
    let ghost n = graph.n as int;
    let ghost kk = (n + 1) * w;
    proof {
        g.lemma_weight_bounds();
        assert(kk >= 0) by (nonlinear_arith)
            requires
                kk == (n + 1) * w,
                n >= 0,
                w >= 0,
        ;
        assert(n * g.pweight_bound() <= kk) by (nonlinear_arith)
            requires
                kk == (n + 1) * w,
                n >= 0,
                0 <= g.pweight_bound() <= w,
        ;
        assert(kk <= (h + 1) * kk) by (nonlinear_arith)
            requires
                kk >= 0,
                h >= 0,
        ;
    }
    let mut cur = dijkstra_with_origins(graph, dist);
    let mut i: usize = 0;
    while i < h
        invariant
            g == graph@,
            g.wf(),
            g.pedges_nonneg(),
            n == graph.n,
            init.len() == n,
            i <= h,
            w == g.weight_bound(),
            kk == (n + 1) * w,
            kk >= 0,
            a + (h + 1) * kk <= i64::MAX,
            cur@.len() == n,
            attained_from(g, init, cur@, i as nat),
            g.bounded_by_walks(dists(init), dists(cur@), Some(i as nat)),
            g.closed_p(dists(cur@)),
            max_abs(dists(cur@)) <= a + (i + 1) * kk,
        decreases h - i,
    {
        proof {
            assert((i + 2) * kk <= (h + 1) * kk) by (nonlinear_arith)
                requires
                    i + 2 <= h + 1,
                    kk >= 0,
            ;
            assert((i + 2) * kk == (i + 1) * kk + kk) by (nonlinear_arith);
        }
        let (next, _) = hop_round(graph, &cur, Ghost(init), Ghost(i as nat));
        cur = next;
        i += 1;
    }
    proof {
        assert forall|v: int| 0 <= v < g.n && (#[trigger] dists(cur@)[v]) is Some implies g.reaches(
            dists(init),
            v,
            dists(cur@)[v].unwrap() as int,
            Some(h as nat),
        ) by {
            assert(cur@[v] is Some);
            g.lemma_reaches_from_dists(init, v, cur@[v].unwrap().0 as int, cur@[v].unwrap().1, Some(h as nat));
        }
    }
    cur
}

/// Hop-bounded shortest paths: from the labelled starts `dist`, the shortest
/// walks using at most `h` negative edges (`None` where there is none).
pub fn bellman_ford_dijkstra_up_to_h_hops(
    graph: BorrowedWeightedGraph<'_>,
    h: usize,
    dist: Vec<Option<i64>>,
) -> (res: Vec<Option<i64>>)
    requires
        graph@.wf(),
        graph@.pedges_nonneg(),
        dist@.len() == graph.n,
        max_abs(dist@) + (h + 1) * ((graph.n + 1) * graph@.weight_bound()) <= i64::MAX,
    ensures
        res@.len() == graph.n,
        graph@.is_hop_dist(dist@, res@, h as nat),
        max_abs(res@) <= max_abs(dist@) + (h + 1) * ((graph.n + 1) * graph@.weight_bound()),
{
    let labelled = with_zero_origins(&dist);
    let out = bellman_ford_dijkstra_up_to_h_hops_with_origins(graph, h, labelled);
    without_origins(&out)
}

/// The distances of labels that are all present.
fn unwrap_labels(dist: &Vec<Option<(i64, usize)>>) -> (res: Vec<i64>)
    requires
        forall|v: int| 0 <= v < dist@.len() ==> (#[trigger] dist@[v]) is Some,
    ensures
        somes(res@) == dists(dist@),
        res@.len() == dist@.len(),
{
    let mut res: Vec<i64> = Vec::new();
    let mut i: usize = 0;
    while i < dist.len()
        invariant
            i <= dist@.len(),
            forall|v: int| 0 <= v < dist@.len() ==> (#[trigger] dist@[v]) is Some,
            res@.len() == i,
            forall|v: int| 0 <= v < i ==> Some(#[trigger] res@[v]) == dists(dist@)[v],
        decreases dist@.len() - i,
    {
        let x = match dist[i] {
            Some(p) => p.0,
            None => 0,
        };
        res.push(x);
        i += 1;
    }
    assert(somes(res@) =~= dists(dist@));
    res
}

/// The potential from every vertex at distance 0, computed with at most `h`
/// rounds of negative-edge relaxation.  `Ok(d)`: `d[v]` is the least weight of any
/// walk ending at `v` (the empty walk counts), already reached within `h` negative
/// hops; it makes every edge non-negative.  `Err(())`: exactly when some vertex has
/// a walk with `h + 1` negative hops lighter than all walks with at most `h`.
pub fn bellman_ford_dijkstra_with_hops_bound(graph: BorrowedWeightedGraph<'_>, h: usize) -> (res: Result<
    Vec<i64>,
    (),
>)
    requires
        graph@.wf(),
        graph@.pedges_nonneg(),
        (h + 2) * ((graph.n + 1) * graph@.weight_bound()) <= i64::MAX,
    ensures
        match res {
            Ok(d) => {
                &&& d@.len() == graph.n
                &&& graph@.is_hop_dist(all_zero(graph@.n), somes(d@), h as nat)
                &&& graph@.is_dist(all_zero(graph@.n), somes(d@))
                &&& graph@.eliminates(d@)
            },
            Err(_) => true,
        },
        res is Err <==> graph@.needs_more_hops(h as nat),
{
    let n = graph.n;
    let ghost g = graph@;
    let ghost w = g.weight_bound() as int;
    let ghost kk = (n + 1) * w;
    let zeros = filled(n, Some((0i64, 0usize)));
    let ghost init = zeros@;
    proof {
        g.lemma_weight_bounds();
        assert(dists(init) =~= all_zero(g.n));
        assert(kk >= 0) by (nonlinear_arith)
            requires
                kk == (n + 1) * w,
                n >= 0,
                w >= 0,
        ;
        assert(n * g.pweight_bound() <= kk) by (nonlinear_arith)
            requires
                kk == (n + 1) * w,
                n >= 0,
                0 <= g.pweight_bound() <= w,
        ;
        assert(kk <= (h + 2) * kk) by (nonlinear_arith)
            requires
                kk >= 0,
                h >= 0,
        ;
        lemma_max_abs_le(dists(init), 0);
        assert(1 * kk == kk);
    }
    let mut dist = dijkstra_with_origins(graph, copy_labels(&zeros));
    let mut i: usize = 0;
    while i < h
        invariant
            g == graph@,
            g.wf(),
            g.pedges_nonneg(),
            n == graph.n,
            init.len() == n,
            dists(init) == all_zero(g.n),
            i <= h,
            w == g.weight_bound(),
            kk == (n + 1) * w,
            kk >= 0,
            (h + 2) * kk <= i64::MAX,
            dist@.len() == n,
            attained_from(g, init, dist@, i as nat),
            g.bounded_by_walks(dists(init), dists(dist@), Some(i as nat)),
            g.closed_p(dists(dist@)),
            improves(dists(init), dists(dist@)),
            max_abs(dists(dist@)) <= (i + 1) * kk,
        decreases h - i,
    {
        proof {
            assert((i + 2) * kk <= (h + 2) * kk) by (nonlinear_arith)
                requires
                    i + 2 <= h + 2,
                    kk >= 0,
            ;
            assert((i + 2) * kk == (i + 1) * kk + kk) by (nonlinear_arith);
        }
        let (next, relaxed) = hop_round(graph, &dist, Ghost(init), Ghost(i as nat));
        if !relaxed {
            proof {
                self_closed_result(g, init, dist@, i as nat, h as nat);
            }
            let d = unwrap_labels(&dist);
            proof {
                g.lemma_closed_eliminates(d@);
            }
            return Ok(d);
        }
        proof {
            // the starts are all labelled, so the labels stay present
            assert(improves(dists(init), dists(next@))) by {
                assert forall|v: int| 0 <= v < dists(init).len() && (#[trigger] dists(init)[v]) is Some implies dists(next@)[v] is Some
                    && dists(next@)[v].unwrap() <= dists(init)[v].unwrap() by {
                    let z = Seq::<Step>::empty();
                    assert(g.is_walk(v, z));
                    assert(within(z, Some((i + 1) as nat)));
                    assert(init[v] is Some);
                }
            }
        }
        dist = next;
        i += 1;
    }
    proof {
        assert((h + 1) * kk + kk == (h + 2) * kk) by (nonlinear_arith);
        assert(w <= kk) by (nonlinear_arith)
            requires
                kk == (n + 1) * w,
                n >= 0,
                w >= 0,
        ;
    }
    let (ndist, relaxed) = relax_negative_edges(graph, &dist);
    if relaxed {
        proof {
            let v = choose|v: int|
                0 <= v < graph.n && (#[trigger] ndist@[v]) is Some && (dist@[v] is None || ndist@[v].unwrap().0
                    < dist@[v].unwrap().0);
            g.lemma_attained_chain(init, dist@, ndist@, h as nat, 1);
            let (s, p) = g.lemma_reaches_from_witness(
                init,
                v,
                ndist@[v].unwrap().0 as int,
                ndist@[v].unwrap().1,
                Some((h + 1) as nat),
            );
            assert(init[s] == Some((0i64, 0usize)));
            assert(dist@[v] is Some) by {
                assert(dists(init)[v] is Some);
            }
            assert forall|s2: int, p2: Seq<Step>|
                #[trigger] g.is_walk(s2, p2) && g.walk_end(s2, p2) == g.walk_end(s, p) && hops(p2) <= h implies g.walk_weight(
                    s,
                    p,
                ) < g.walk_weight(s2, p2) by {
                g.lemma_walk_start_in_range(s2, p2);
                assert(dists(init)[s2] == Some(0i64));
                assert(within(p2, Some(h as nat)));
                assert(dists(dist@)[v] is Some);
            }
            assert(g.needs_more_hops(h as nat));
        }
        return Err(());
    }
    proof {
        self_closed_result(g, init, dist@, h as nat, h as nat);
    }
    let d = unwrap_labels(&dist);
    proof {
        g.lemma_closed_eliminates(d@);
    }
    Ok(d)
}

/// When the `k`-hop labels are closed under every active edge, they are the
/// unbounded distances from every vertex, reached within `k <= h` hops.
proof fn self_closed_result(g: GraphModel, init: Seq<Option<(i64, usize)>>, d: Seq<Option<(i64, usize)>>, k: nat, h: nat)
    requires
        g.wf(),
        k <= h,
        init.len() == g.n,
        d.len() == g.n,
        dists(init) == all_zero(g.n),
        attained_from(g, init, d, k),
        g.closed_p(dists(d)),
        g.closed_n(dists(d), dists(d)),
        improves(dists(init), dists(d)),
    ensures
        forall|v: int| 0 <= v < d.len() ==> (#[trigger] d[v]) is Some,
        g.is_hop_dist(all_zero(g.n), dists(d), h),
        g.is_dist(all_zero(g.n), dists(d)),
        forall|v: int| 0 <= v < d.len() ==> #[trigger] dists(d)[v] is Some,
        !g.needs_more_hops(h),
{
    let z = all_zero(g.n);
    let dd = dists(d);
    assert forall|v: int| 0 <= v < d.len() implies (#[trigger] d[v]) is Some by {
        assert(z[v] is Some);
        assert(dd[v] is Some);
    }
    g.lemma_bounded_closed(z, dd, None);
    g.lemma_bounded_weaken(z, dd, Some(h), None);
    assert forall|v: int| 0 <= v < g.n && (#[trigger] dd[v]) is Some implies g.reaches(z, v, dd[v].unwrap() as int, Some(h))
        && g.reaches(z, v, dd[v].unwrap() as int, None) by {
        assert(d[v] is Some);
        g.lemma_reaches_from_dists(init, v, d[v].unwrap().0 as int, d[v].unwrap().1, Some(k));
        g.lemma_reaches_weaken(z, v, dd[v].unwrap() as int, Some(k), Some(h));
        g.lemma_reaches_weaken(z, v, dd[v].unwrap() as int, Some(k), None);
    }
    g.lemma_final_no_more_hops(dd, h);
}

/// The labels "distance 0 at every vertex of `start`".
pub open spec fn start_labels(n: nat, start: Seq<usize>) -> Seq<Option<i64>> {
    Seq::new(
        n,
        |v: int|
            if start.contains(v as usize) {
                Some(0i64)
            } else {
                None
            },
    )
}

/// `r` lists, in increasing order, exactly the vertices that some start reaches
/// by a walk of negative weight with at most `h` negative edges.
pub open spec fn is_reach_list(g: GraphModel, h: nat, start: Seq<usize>, r: Seq<usize>) -> bool {
    &&& forall|i: int, j: int| 0 <= i < j < r.len() ==> r[i] < r[j]
    &&& forall|i: int| 0 <= i < r.len() ==> #[trigger] r[i] < g.n
    &&& forall|v: int| 0 <= v < g.n ==> (r.contains(v as usize) <==> g.in_negative_reach(start, v, h))
}

/// The negative `h`-hop reach of `start`: in increasing order, every vertex that
/// some start reaches by a walk of negative weight with at most `h` negative edges.
pub fn negative_h_hop_reach(graph: BorrowedWeightedGraph<'_>, h: usize, start: &[usize]) -> (res: Vec<usize>)
    requires
        graph@.wf(),
        graph@.pedges_nonneg(),
        forall|i: int| 0 <= i < start@.len() ==> #[trigger] start@[i] < graph.n,
        (h + 1) * ((graph.n + 1) * graph@.weight_bound()) <= i64::MAX,
    ensures
        is_reach_list(graph@, h as nat, start@, res@),
{
    let n = graph.n;
    let ghost g = graph@;
    let ghost init = start_labels(g.n, start@);
    let mut dist: Vec<Option<i64>> = filled(n, None);
    let mut i: usize = 0;
    while i < start.len()
        invariant
            i <= start@.len(),
            dist@.len() == n,
            n == g.n,
            forall|k: int| 0 <= k < start@.len() ==> #[trigger] start@[k] < n,
            forall|v: int|
                0 <= v < n ==> #[trigger] dist@[v] == if start@.take(i as int).contains(v as usize) {
                    Some(0i64)
                } else {
                    None
                },
        decreases start@.len() - i,
    {
        let s0 = start[i];
        dist.set(s0, Some(0));
        proof {
            assert forall|v: int| 0 <= v < n implies #[trigger] dist@[v] == if start@.take(i + 1).contains(v as usize) {
                Some(0i64)
            } else {
                None
            } by {
                assert(start@.take(i + 1) =~= start@.take(i as int).push(s0));
                if v == s0 as int {
                    assert(start@.take(i + 1)[i as int] == s0);
                }
            }
        }
        i += 1;
    }
    proof {
        assert(start@.take(start@.len() as int) =~= start@);
        assert(dist@ =~= init);
        assert forall|v: int| 0 <= v < dist@.len() && (#[trigger] dist@[v]) is Some implies abs(dist@[v].unwrap() as int) <= 0 by {}
        lemma_max_abs_le(dist@, 0);
    }
    let out = bellman_ford_dijkstra_up_to_h_hops(graph, h, dist);
    let mut res: Vec<usize> = Vec::new();
    let mut u: usize = 0;
    while u < n
        invariant
            u <= n,
            n == g.n,
            out@.len() == n,
            forall|a: int, b: int| 0 <= a < b < res@.len() ==> res@[a] < res@[b],
            forall|a: int| 0 <= a < res@.len() ==> #[trigger] res@[a] < u,
            forall|v: int|
                0 <= v < n ==> (res@.contains(v as usize) <==> (v < u && out@[v] is Some && out@[v].unwrap() < 0)),
        decreases n - u,
    {
        match out[u] {
            Some(d) => {
                if d < 0 {
                    let ghost before = res@;
                    res.push(u);
                    proof {
                        assert forall|v: int| 0 <= v < n implies (res@.contains(v as usize) <==> (v < u + 1
                            && out@[v] is Some && out@[v].unwrap() < 0)) by {
                            if v == u {
                                assert(res@[before.len() as int] == u);
                            }
                            if res@.contains(v as usize) && v != u {
                                let k = choose|k: int| 0 <= k < res@.len() && res@[k] == v as usize;
                                assert(k < before.len());
                                assert(before.contains(v as usize));
                            }
                            if before.contains(v as usize) {
                                let k = choose|k: int| 0 <= k < before.len() && before[k] == v as usize;
                                assert(res@[k] == v as usize);
                            }
                        }
                    }
                }
            },
            None => {},
        }
        u += 1;
    }
    proof {
        assert forall|v: int| 0 <= v < g.n implies (out@[v] is Some && out@[v].unwrap() < 0) == g.in_negative_reach(
            start@,
            v,
            h as nat,
        ) by {
            if out@[v] is Some && out@[v].unwrap() < 0 {
                let (s, p) = g.lemma_reaches_witness(init, v, out@[v].unwrap() as int, Some(h as nat));
                assert(start@.contains(s as usize));
                let i = choose|i: int| 0 <= i < start@.len() && start@[i] == s as usize;
                assert(start@[i] as int == s);
                assert(g.is_walk(start@[i] as int, p));
            }
            if g.in_negative_reach(start@, v, h as nat) {
                let (i, p) = choose|i: int, p: Seq<Step>|
                    0 <= i < start@.len() && #[trigger] g.is_walk(start@[i] as int, p) && g.walk_end(start@[i] as int, p)
                        == v && hops(p) <= h && g.walk_weight(start@[i] as int, p) < 0;
                let s = start@[i] as int;
                assert(start@.contains(s as usize));
                assert(init[s] == Some(0i64));
                assert(within(p, Some(h as nat)));
            }
        }
    }
    res
}

/// Two increasing lists, each element of one found in the other (at `f1(i)`,
/// `f2(i)`), agree up to position `k`.
proof fn lemma_increasing_agree(r1: Seq<usize>, r2: Seq<usize>, f1: spec_fn(int) -> int, f2: spec_fn(int) -> int, k: int)
    requires
        forall|i: int, j: int| 0 <= i < j < r1.len() ==> r1[i] < r1[j],
        forall|i: int, j: int| 0 <= i < j < r2.len() ==> r2[i] < r2[j],
        forall|i: int| 0 <= i < r1.len() ==> 0 <= #[trigger] f1(i) < r2.len() && r2[f1(i)] == r1[i],
        forall|i: int| 0 <= i < r2.len() ==> 0 <= #[trigger] f2(i) < r1.len() && r1[f2(i)] == r2[i],
        0 <= k <= r1.len(),
        k <= r2.len(),
    ensures
        forall|i: int| 0 <= i < k ==> #[trigger] r1[i] == r2[i],
    decreases k,
{
    if k > 0 {
        lemma_increasing_agree(r1, r2, f1, f2, k - 1);
        let i = k - 1;
        let i2 = f1(i);
        let i1 = f2(i);
        if i2 < i {
            assert(r1[i2] == r2[i2]);
        } else if i2 > i {
            if i1 < i {
                assert(r1[i1] == r2[i1]);
            }
        }
    }
}

/// The reach list is unique: two lists of the same reach are equal.
pub proof fn lemma_reach_list_unique(g: GraphModel, h: nat, start: Seq<usize>, r1: Seq<usize>, r2: Seq<usize>)
    requires
        g.n <= usize::MAX,
        is_reach_list(g, h, start, r1),
        is_reach_list(g, h, start, r2),
    ensures
        r1 == r2,
{
    assert forall|i: int| 0 <= i < r1.len() implies r2.contains(#[trigger] r1[i]) by {
        let v = r1[i] as int;
        assert(v < g.n);
        assert(r1.contains(v as usize));
        assert(g.in_negative_reach(start, v, h));
        assert(r2.contains(v as usize));
    }
    assert forall|i: int| 0 <= i < r2.len() implies r1.contains(#[trigger] r2[i]) by {
        let v = r2[i] as int;
        assert(v < g.n);
        assert(r2.contains(v as usize));
        assert(g.in_negative_reach(start, v, h));
        assert(r1.contains(v as usize));
    }
    let f1 = |i: int| choose|i2: int| 0 <= i2 < r2.len() && r2[i2] == r1[i];
    let f2 = |i: int| choose|i1: int| 0 <= i1 < r1.len() && r1[i1] == r2[i];
    assert forall|i: int| 0 <= i < r1.len() implies 0 <= #[trigger] f1(i) < r2.len() && r2[f1(i)] == r1[i] by {
        assert(r2.contains(r1[i]));
    }
    assert forall|i: int| 0 <= i < r2.len() implies 0 <= #[trigger] f2(i) < r1.len() && r1[f2(i)] == r2[i] by {
        assert(r1.contains(r2[i]));
    }
    let k = if r1.len() <= r2.len() {
        r1.len() as int
    } else {
        r2.len() as int
    };
    lemma_increasing_agree(r1, r2, f1, f2, k);
    if r1.len() < r2.len() {
        let i1 = f2(k);
        assert(r1[i1] == r2[i1]);
    }
    if r2.len() < r1.len() {
        let i2 = f1(k);
        assert(r1[i2] == r2[i2]);
    }
    assert(r1 =~= r2);
}

/// The reach of a set of starts is the union of the reaches of its members: a
/// vertex is on the list of `start` exactly when it is on the list of one start.
pub proof fn lemma_reach_list_union(g: GraphModel, h: nat, start: Seq<usize>, r: Seq<usize>, rs: Seq<Seq<usize>>)
    requires
        g.n <= usize::MAX,
        is_reach_list(g, h, start, r),
        rs.len() == start.len(),
        forall|i: int| 0 <= i < start.len() ==> is_reach_list(g, h, seq![start[i]], #[trigger] rs[i]),
    ensures
        forall|v: usize| r.contains(v) <==> exists|i: int| 0 <= i < rs.len() && (#[trigger] rs[i]).contains(v),
{
    assert forall|v: usize| r.contains(v) <==> exists|i: int| 0 <= i < rs.len() && (#[trigger] rs[i]).contains(v) by {
        g.lemma_negative_reach_union(start, v as int, h);
        if r.contains(v) {
            let k = choose|k: int| 0 <= k < r.len() && r[k] == v;
            assert(r[k] < g.n);
            assert(g.in_negative_reach(start, v as int, h));
            let i = choose|i: int| 0 <= i < start.len() && #[trigger] g.in_negative_reach(seq![start[i]], v as int, h);
            assert(is_reach_list(g, h, seq![start[i]], rs[i]));
            assert(rs[i].contains(v));
        }
        if exists|i: int| 0 <= i < rs.len() && (#[trigger] rs[i]).contains(v) {
            let i = choose|i: int| 0 <= i < rs.len() && (#[trigger] rs[i]).contains(v);
            assert(is_reach_list(g, h, seq![start[i]], rs[i]));
            let k = choose|k: int| 0 <= k < rs[i].len() && rs[i][k] == v;
            assert(rs[i][k] < g.n);
            assert(g.in_negative_reach(seq![start[i]], v as int, h));
            assert(g.in_negative_reach(start, v as int, h));
            assert(r.contains(v));
        }
    }
}

/// The reach grows with the hop budget: every vertex on the list for `h1` is on
/// the list for any `h2 >= h1`.
pub proof fn lemma_reach_list_mono(g: GraphModel, start: Seq<usize>, h1: nat, h2: nat, r1: Seq<usize>, r2: Seq<usize>)
    requires
        g.n <= usize::MAX,
        h1 <= h2,
        is_reach_list(g, h1, start, r1),
        is_reach_list(g, h2, start, r2),
    ensures
        forall|v: usize| r1.contains(v) ==> r2.contains(v),
{
    assert forall|v: usize| r1.contains(v) implies r2.contains(v) by {
        let k = choose|k: int| 0 <= k < r1.len() && r1[k] == v;
        assert(r1[k] < g.n);
        assert(g.in_negative_reach(start, v as int, h1));
        g.lemma_negative_reach_mono(start, v as int, h1, h2);
    }
}

} // verus!
