//! The mathematical model of a weighted graph split into non-negative edges
//! (`pedges`) and flagged negative edges (`nedges`), walks over it, and
//! hop-bounded distances.
use vstd::prelude::*;

verus! {

/// One step of a walk: `(false, j)` follows the `j`-th non-negative edge of the
/// current vertex, `(true, j)` follows its `j`-th negative edge (which must be active).
pub type Step = (bool, int);

/// The abstract view of a weighted graph on vertices `0..n`.
pub struct GraphModel {
    pub n: nat,
    pub pedges: Seq<Seq<(usize, i64)>>,
    pub nedges: Seq<Seq<(usize, i64, bool)>>,
}

/// Number of negative-edge steps (hops) of a walk.
pub open spec fn hops(p: Seq<Step>) -> nat
    decreases p.len(),
{
    if p.len() == 0 {
        0
    } else {
        hops(p.drop_last()) + if p.last().0 {
            1nat
        } else {
            0nat
        }
    }
}

/// A walk respects the hop limit `h` (`None`: no limit).
pub open spec fn within(p: Seq<Step>, h: Option<nat>) -> bool {
    match h {
        Some(k) => hops(p) <= k,
        None => true,
    }
}

/// The distances carried by a sequence of labels `(distance, origin)`.
pub open spec fn dists(s: Seq<Option<(i64, usize)>>) -> Seq<Option<i64>> {
    s.map_values(
        |x: Option<(i64, usize)>|
            match x {
                Some(y) => Some(y.0),
                None => None,
            },
    )
}

/// Every entry is `Some`.
pub open spec fn somes(s: Seq<i64>) -> Seq<Option<i64>> {
    s.map_values(|x: i64| Some(x))
}

/// The start labels "every vertex at distance 0".
pub open spec fn all_zero(n: nat) -> Seq<Option<i64>> {
    Seq::new(n, |i: int| Some(0i64))
}

/// Largest absolute value among the `Some` entries (0 when there is none).
pub open spec fn max_abs(s: Seq<Option<i64>>) -> nat
    decreases s.len(),
{
    if s.len() == 0 {
        0
    } else {
        let rest = max_abs(s.drop_last());
        match s.last() {
            Some(d) => {
                let a = if d < 0 {
                    (-d) as nat
                } else {
                    d as nat
                };
                if a > rest {
                    a
                } else {
                    rest
                }
            },
            None => rest,
        }
    }
}

pub open spec fn abs(x: int) -> int {
    if x < 0 {
        -x
    } else {
        x
    }
}

/// Largest absolute weight in one adjacency row.
pub open spec fn row_bound_p(row: Seq<(usize, i64)>) -> nat
    decreases row.len(),
{
    if row.len() == 0 {
        0
    } else {
        let rest = row_bound_p(row.drop_last());
        let a = abs(row.last().1 as int) as nat;
        if a > rest {
            a
        } else {
            rest
        }
    }
}

pub open spec fn rows_bound_p(rows: Seq<Seq<(usize, i64)>>) -> nat
    decreases rows.len(),
{
    if rows.len() == 0 {
        0
    } else {
        let rest = rows_bound_p(rows.drop_last());
        let a = row_bound_p(rows.last());
        if a > rest {
            a
        } else {
            rest
        }
    }
}

pub open spec fn row_bound_n(row: Seq<(usize, i64, bool)>) -> nat
    decreases row.len(),
{
    if row.len() == 0 {
        0
    } else {
        let rest = row_bound_n(row.drop_last());
        let a = abs(row.last().1 as int) as nat;
        if a > rest {
            a
        } else {
            rest
        }
    }
}

pub open spec fn rows_bound_n(rows: Seq<Seq<(usize, i64, bool)>>) -> nat
    decreases rows.len(),
{
    if rows.len() == 0 {
        0
    } else {
        let rest = rows_bound_n(rows.drop_last());
        let a = row_bound_n(rows.last());
        if a > rest {
            a
        } else {
            rest
        }
    }
}

/// Total number of entries of a family of rows.
pub open spec fn rows_len_p(rows: Seq<Seq<(usize, i64)>>) -> nat
    decreases rows.len(),
{
    if rows.len() == 0 {
        0
    } else {
        rows_len_p(rows.drop_last()) + rows.last().len()
    }
}

pub open spec fn rows_len_n(rows: Seq<Seq<(usize, i64, bool)>>) -> nat
    decreases rows.len(),
{
    if rows.len() == 0 {
        0
    } else {
        rows_len_n(rows.drop_last()) + rows.last().len()
    }
}

impl GraphModel {
    /// One row per vertex and all edge targets inside `0..n`.
    pub open spec fn wf(self) -> bool {
        &&& self.pedges.len() == self.n
        &&& self.nedges.len() == self.n
        &&& forall|u: int, j: int|
            0 <= u < self.n && 0 <= j < self.pedges[u].len() ==> #[trigger] self.pedges[u][j].0
                < self.n
        &&& forall|u: int, j: int|
            0 <= u < self.n && 0 <= j < self.nedges[u].len() ==> #[trigger] self.nedges[u][j].0
                < self.n
    }

    /// All edges of `pedges` have non-negative weight.
    pub open spec fn pedges_nonneg(self) -> bool {
        forall|u: int, j: int|
            0 <= u < self.pedges.len() && 0 <= j < self.pedges[u].len() ==> #[trigger] self.pedges[u][j].1
                >= 0
    }

    /// Largest absolute weight of a non-negative edge.
    pub open spec fn pweight_bound(self) -> nat {
        rows_bound_p(self.pedges)
    }

    /// Largest absolute weight over all edges.
    pub open spec fn weight_bound(self) -> nat {
        let a = rows_bound_p(self.pedges);
        let b = rows_bound_n(self.nedges);
        if a > b {
            a
        } else {
            b
        }
    }

    /// Number of edges (both kinds, active or not).
    pub open spec fn edge_total(self) -> nat {
        rows_len_p(self.pedges) + rows_len_n(self.nedges)
    }

    /// The same graph with every negative edge active.
    pub open spec fn all_active(self) -> GraphModel {
        GraphModel {
            n: self.n,
            pedges: self.pedges,
            nedges: self.nedges.map_values(
                |row: Seq<(usize, i64, bool)>|
                    row.map_values(|e: (usize, i64, bool)| (e.0, e.1, true)),
            ),
        }
    }

    pub open spec fn step_ok(self, x: int, st: Step) -> bool {
        &&& 0 <= x < self.n
        &&& if st.0 {
            0 <= st.1 < self.nedges[x].len() && self.nedges[x][st.1].2
        } else {
            0 <= st.1 < self.pedges[x].len()
        }
    }

    pub open spec fn step_target(self, x: int, st: Step) -> int {
        if st.0 {
            self.nedges[x][st.1].0 as int
        } else {
            self.pedges[x][st.1].0 as int
        }
    }

    pub open spec fn step_weight(self, x: int, st: Step) -> int {
        if st.0 {
            self.nedges[x][st.1].1 as int
        } else {
            self.pedges[x][st.1].1 as int
        }
    }

    /// The vertex reached from `s` after the steps `p`.
    pub open spec fn walk_end(self, s: int, p: Seq<Step>) -> int
        decreases p.len(),
    {
        if p.len() == 0 {
            s
        } else {
            self.step_target(self.walk_end(s, p.drop_last()), p.last())
        }
    }

    /// `p` is a walk starting at vertex `s`.
    pub open spec fn is_walk(self, s: int, p: Seq<Step>) -> bool
        decreases p.len(),
    {
        if p.len() == 0 {
            0 <= s < self.n
        } else {
            self.is_walk(s, p.drop_last()) && self.step_ok(
                self.walk_end(s, p.drop_last()),
                p.last(),
            )
        }
    }

    /// Total weight of the walk `p` from `s`.
    pub open spec fn walk_weight(self, s: int, p: Seq<Step>) -> int
        decreases p.len(),
    {
        if p.len() == 0 {
            0
        } else {
            self.walk_weight(s, p.drop_last()) + self.step_weight(
                self.walk_end(s, p.drop_last()),
                p.last(),
            )
        }
    }

    /// Some start `s` labelled `init[s]` reaches `v` by a walk within the hop
    /// limit, and label plus walk weight is `d`.
    #[verifier::opaque]
    pub open spec fn reaches(
        self,
        init: Seq<Option<i64>>,
        v: int,
        d: int,
        h: Option<nat>,
    ) -> bool {
        exists|s: int, p: Seq<Step>|
            #![trigger self.is_walk(s, p), init[s]]
            {
                &&& self.is_walk(s, p)
                &&& self.walk_end(s, p) == v
                &&& within(p, h)
                &&& 0 <= s < init.len()
                &&& init[s] is Some
                &&& init[s].unwrap() + self.walk_weight(s, p) == d
            }
    }

    /// As `reaches`, and the start carries origin `o`.
    #[verifier::opaque]
    pub open spec fn reaches_from(
        self,
        init: Seq<Option<(i64, usize)>>,
        v: int,
        d: int,
        o: usize,
        h: Option<nat>,
    ) -> bool {
        exists|s: int, p: Seq<Step>|
            #![trigger self.is_walk(s, p), init[s]]
            {
                &&& self.is_walk(s, p)
                &&& self.walk_end(s, p) == v
                &&& within(p, h)
                &&& 0 <= s < init.len()
                &&& init[s] is Some
                &&& init[s].unwrap().1 == o
                &&& init[s].unwrap().0 + self.walk_weight(s, p) == d
            }
    }

    /// No walk within the hop limit beats `out`: every walk from a labelled start
    /// ends at a vertex labelled at most `init[s] + weight`.
    pub open spec fn bounded_by_walks(
        self,
        init: Seq<Option<i64>>,
        out: Seq<Option<i64>>,
        h: Option<nat>,
    ) -> bool {
        forall|s: int, p: Seq<Step>|
            #![trigger self.is_walk(s, p), init[s]]
            self.is_walk(s, p) && within(p, h) && 0 <= s < init.len() && init[s] is Some ==> {
                let v = self.walk_end(s, p);
                &&& out[v] is Some
                &&& out[v].unwrap() <= init[s].unwrap() + self.walk_weight(s, p)
            }
    }

    /// `out` is the shortest-walk distance from the labelled starts `init`
    /// over walks within the hop limit: every value is attained and none can be beaten;
    /// `None` exactly where no such walk exists.
    pub open spec fn is_dist_within(
        self,
        init: Seq<Option<i64>>,
        out: Seq<Option<i64>>,
        h: Option<nat>,
    ) -> bool {
        &&& out.len() == self.n
        &&& forall|v: int|
            0 <= v < self.n && (#[trigger] out[v]) is Some ==> self.reaches(
                init,
                v,
                out[v].unwrap() as int,
                h,
            )
        &&& self.bounded_by_walks(init, out, h)
    }

    /// `h`-hop distance: shortest walks with at most `h` negative edges.
    pub open spec fn is_hop_dist(self, init: Seq<Option<i64>>, out: Seq<Option<i64>>, h: nat) -> bool {
        self.is_dist_within(init, out, Some(h))
    }

    /// Unbounded shortest-walk distance.
    pub open spec fn is_dist(self, init: Seq<Option<i64>>, out: Seq<Option<i64>>) -> bool {
        self.is_dist_within(init, out, None)
    }

    /// The `h`-hop distance, with each vertex labelled by the origin of a start
    /// from which a shortest walk comes.
    pub open spec fn is_hop_dist_with_origins(
        self,
        init: Seq<Option<(i64, usize)>>,
        out: Seq<Option<(i64, usize)>>,
        h: nat,
    ) -> bool {
        &&& self.is_hop_dist(dists(init), dists(out), h)
        &&& forall|v: int|
            0 <= v < self.n && (#[trigger] out[v]) is Some ==> self.reaches_from(
                init,
                v,
                out[v].unwrap().0 as int,
                out[v].unwrap().1,
                Some(h),
            )
    }

    /// No non-negative edge leaving a labelled vertex can improve its target.
    pub open spec fn closed_p(self, d: Seq<Option<i64>>) -> bool {
        forall|u: int, j: int|
            0 <= u < self.n && 0 <= j < self.pedges[u].len() && (#[trigger] d[u]) is Some
                ==> #[trigger] d[self.pedges[u][j].0 as int] is Some && d[self.pedges[u][j].0 as int].unwrap()
                <= d[u].unwrap() + self.pedges[u][j].1
    }

    /// Relaxing the active negative edges out of `d` cannot improve `e`.
    pub open spec fn closed_n(self, d: Seq<Option<i64>>, e: Seq<Option<i64>>) -> bool {
        forall|u: int, j: int|
            0 <= u < self.n && 0 <= j < self.nedges[u].len() && (#[trigger] d[u]) is Some
                && #[trigger] self.nedges[u][j].2 ==> e[self.nedges[u][j].0 as int] is Some
                && e[self.nedges[u][j].0 as int].unwrap() <= d[u].unwrap() + self.nedges[u][j].1
    }

    /// A closed walk of negative weight exists.
    pub open spec fn has_negative_cycle(self) -> bool {
        exists|s: int, p: Seq<Step>|
            #[trigger] self.is_walk(s, p) && p.len() > 0 && self.walk_end(s, p) == s
                && self.walk_weight(s, p) < 0
    }

    /// The potential `d` makes every edge non-negative: `w + d[u] - d[v] >= 0`.
    pub open spec fn eliminates(self, d: Seq<i64>) -> bool {
        &&& d.len() == self.n
        &&& forall|u: int, j: int|
            0 <= u < self.n && 0 <= j < self.pedges[u].len() ==> d[self.pedges[u][j].0 as int]
                <= d[u] + #[trigger] self.pedges[u][j].1
        &&& forall|u: int, j: int|
            0 <= u < self.n && 0 <= j < self.nedges[u].len() && #[trigger] self.nedges[u][j].2
                ==> d[self.nedges[u][j].0 as int] <= d[u] + self.nedges[u][j].1
    }
}

// ---------------------------------------------------------------------------
// Lemmas on walks.
impl GraphModel {
    pub proof fn lemma_walk_push(self, s: int, p: Seq<Step>, st: Step)
        requires
            self.is_walk(s, p),
            self.step_ok(self.walk_end(s, p), st),
        ensures
            self.is_walk(s, p.push(st)),
            self.walk_end(s, p.push(st)) == self.step_target(self.walk_end(s, p), st),
            self.walk_weight(s, p.push(st)) == self.walk_weight(s, p) + self.step_weight(
                self.walk_end(s, p),
                st,
            ),
            hops(p.push(st)) == hops(p) + if st.0 {
                1nat
            } else {
                0nat
            },
    {
        assert(p.push(st).drop_last() =~= p);
    }

    /// Walks stay inside `0..n`.
    pub proof fn lemma_walk_end_in_range(self, s: int, p: Seq<Step>)
        requires
            self.wf(),
            self.is_walk(s, p),
        ensures
            0 <= self.walk_end(s, p) < self.n,
        decreases p.len(),
    {
        if p.len() > 0 {
            self.lemma_walk_end_in_range(s, p.drop_last());
            let x = self.walk_end(s, p.drop_last());
            let st = p.last();
            if st.0 {
                assert(self.nedges[x][st.1].0 < self.n);
            } else {
                assert(self.pedges[x][st.1].0 < self.n);
            }
        }
    }

    /// Walks start inside `0..n`.
    pub proof fn lemma_walk_start_in_range(self, s: int, p: Seq<Step>)
        requires
            self.is_walk(s, p),
        ensures
            0 <= s < self.n,
        decreases p.len(),
    {
        if p.len() > 0 {
            self.lemma_walk_start_in_range(s, p.drop_last());
        }
    }

    /// Concatenation of two walks.
    pub proof fn lemma_walk_concat(self, s: int, p: Seq<Step>, q: Seq<Step>)
        requires
            self.is_walk(s, p),
            self.is_walk(self.walk_end(s, p), q),
        ensures
            self.is_walk(s, p + q),
            self.walk_end(s, p + q) == self.walk_end(self.walk_end(s, p), q),
            self.walk_weight(s, p + q) == self.walk_weight(s, p) + self.walk_weight(
                self.walk_end(s, p),
                q,
            ),
            hops(p + q) == hops(p) + hops(q),
        decreases q.len(),
    {
        if q.len() == 0 {
            assert(p + q =~= p);
        } else {
            let q0 = q.drop_last();
            assert((p + q).drop_last() =~= p + q0);
            assert((p + q).last() == q.last());
            self.lemma_walk_concat(s, p, q0);
        }
    }

    /// Prefixes of walks are walks.
    pub proof fn lemma_walk_prefix(self, s: int, p: Seq<Step>, i: int)
        requires
            self.is_walk(s, p),
            0 <= i <= p.len(),
        ensures
            self.is_walk(s, p.take(i)),
        decreases p.len(),
    {
        if i < p.len() {
            assert(p.drop_last().take(i) =~= p.take(i));
            self.lemma_walk_prefix(s, p.drop_last(), i);
        } else {
            assert(p.take(i) =~= p);
        }
    }
}

// ---------------------------------------------------------------------------
// Lemmas on bounds.
pub proof fn lemma_max_abs(s: Seq<Option<i64>>)
    ensures
        forall|i: int| 0 <= i < s.len() && (#[trigger] s[i]) is Some ==> abs(s[i].unwrap() as int) <= max_abs(s),
    decreases s.len(),
{
    if s.len() > 0 {
        lemma_max_abs(s.drop_last());
        assert forall|i: int| 0 <= i < s.len() && (#[trigger] s[i]) is Some implies abs(s[i].unwrap() as int) <= max_abs(s) by {
            if i < s.len() - 1 {
                assert(s.drop_last()[i] == s[i]);
            }
        }
    }
}

pub proof fn lemma_max_abs_le(s: Seq<Option<i64>>, c: int)
    requires
        c >= 0,
        forall|i: int| 0 <= i < s.len() && (#[trigger] s[i]) is Some ==> abs(s[i].unwrap() as int) <= c,
    ensures
        max_abs(s) <= c,
    decreases s.len(),
{
    if s.len() > 0 {
        assert forall|i: int| 0 <= i < s.drop_last().len() && (#[trigger] s.drop_last()[i]) is Some implies abs(s.drop_last()[i].unwrap() as int) <= c by {
            assert(s.drop_last()[i] == s[i]);
        }
        lemma_max_abs_le(s.drop_last(), c);
    }
}

pub proof fn lemma_row_bound_p(row: Seq<(usize, i64)>)
    ensures
        forall|j: int| 0 <= j < row.len() ==> abs((#[trigger] row[j]).1 as int) <= row_bound_p(row),
    decreases row.len(),
{
    if row.len() > 0 {
        lemma_row_bound_p(row.drop_last());
        assert forall|j: int| 0 <= j < row.len() implies abs((#[trigger] row[j]).1 as int) <= row_bound_p(row) by {
            if j < row.len() - 1 {
                assert(row.drop_last()[j] == row[j]);
            }
        }
    }
}

pub proof fn lemma_rows_bound_p(rows: Seq<Seq<(usize, i64)>>)
    ensures
        forall|u: int, j: int|
            0 <= u < rows.len() && 0 <= j < rows[u].len() ==> abs((#[trigger] rows[u][j]).1 as int)
                <= rows_bound_p(rows),
    decreases rows.len(),
{
    if rows.len() > 0 {
        lemma_rows_bound_p(rows.drop_last());
        lemma_row_bound_p(rows.last());
        assert forall|u: int, j: int|
            0 <= u < rows.len() && 0 <= j < rows[u].len() implies abs((#[trigger] rows[u][j]).1 as int)
                <= rows_bound_p(rows) by {
            if u < rows.len() - 1 {
                assert(rows.drop_last()[u] == rows[u]);
            }
        }
    }
}

pub proof fn lemma_row_bound_n(row: Seq<(usize, i64, bool)>)
    ensures
        forall|j: int| 0 <= j < row.len() ==> abs((#[trigger] row[j]).1 as int) <= row_bound_n(row),
    decreases row.len(),
{
    if row.len() > 0 {
        lemma_row_bound_n(row.drop_last());
        assert forall|j: int| 0 <= j < row.len() implies abs((#[trigger] row[j]).1 as int) <= row_bound_n(row) by {
            if j < row.len() - 1 {
                assert(row.drop_last()[j] == row[j]);
            }
        }
    }
}

pub proof fn lemma_rows_bound_n(rows: Seq<Seq<(usize, i64, bool)>>)
    ensures
        forall|u: int, j: int|
            0 <= u < rows.len() && 0 <= j < rows[u].len() ==> abs((#[trigger] rows[u][j]).1 as int)
                <= rows_bound_n(rows),
    decreases rows.len(),
{
    if rows.len() > 0 {
        lemma_rows_bound_n(rows.drop_last());
        lemma_row_bound_n(rows.last());
        assert forall|u: int, j: int|
            0 <= u < rows.len() && 0 <= j < rows[u].len() implies abs((#[trigger] rows[u][j]).1 as int)
                <= rows_bound_n(rows) by {
            if u < rows.len() - 1 {
                assert(rows.drop_last()[u] == rows[u]);
            }
        }
    }
}

impl GraphModel {
    /// Every edge weight is bounded in absolute value by `weight_bound`.
    pub proof fn lemma_weight_bounds(self)
        ensures
            forall|u: int, j: int|
                0 <= u < self.pedges.len() && 0 <= j < self.pedges[u].len() ==> abs(
                    (#[trigger] self.pedges[u][j]).1 as int,
                ) <= self.pweight_bound(),
            forall|u: int, j: int|
                0 <= u < self.nedges.len() && 0 <= j < self.nedges[u].len() ==> abs(
                    (#[trigger] self.nedges[u][j]).1 as int,
                ) <= self.weight_bound(),
            self.pweight_bound() <= self.weight_bound(),
    {
        lemma_rows_bound_p(self.pedges);
        lemma_rows_bound_n(self.nedges);
    }
}


/// `b` improves on `a`: wherever `a` has a label, `b` has one at most as large.
pub open spec fn improves(a: Seq<Option<i64>>, b: Seq<Option<i64>>) -> bool {
    forall|v: int|
        0 <= v < a.len() && (#[trigger] a[v]) is Some ==> b[v] is Some && b[v].unwrap() <= a[v].unwrap()
}

impl GraphModel {
    proof fn lemma_bound_walk_zero_hops(
        self,
        init: Seq<Option<i64>>,
        d: Seq<Option<i64>>,
        s: int,
        p: Seq<Step>,
    )
        requires
            self.wf(),
            d.len() == self.n,
            self.closed_p(d),
            improves(init, d),
            self.is_walk(s, p),
            hops(p) == 0,
            0 <= s < init.len(),
            init[s] is Some,
        ensures
            d[self.walk_end(s, p)] is Some,
            d[self.walk_end(s, p)].unwrap() <= init[s].unwrap() + self.walk_weight(s, p),
        decreases p.len(),
    {
        if p.len() > 0 {
            let q = p.drop_last();
            let st = p.last();
            self.lemma_bound_walk_zero_hops(init, d, s, q);
            let x = self.walk_end(s, q);
            self.lemma_walk_end_in_range(s, q);
            assert(d[x] is Some);
            assert(!st.0);
        }
    }

    /// A labelling closed under the non-negative edges and below the start labels
    /// bounds every walk without negative hops.
    pub proof fn lemma_bounded_zero_hops(self, init: Seq<Option<i64>>, d: Seq<Option<i64>>)
        requires
            self.wf(),
            d.len() == self.n,
            self.closed_p(d),
            improves(init, d),
        ensures
            self.bounded_by_walks(init, d, Some(0)),
    {
        assert forall|s: int, p: Seq<Step>|
            #![trigger self.is_walk(s, p), init[s]]
            self.is_walk(s, p) && within(p, Some(0)) && 0 <= s < init.len() && init[s] is Some implies {
                let v = self.walk_end(s, p);
                &&& d[v] is Some
                &&& d[v].unwrap() <= init[s].unwrap() + self.walk_weight(s, p)
            } by {
            self.lemma_bound_walk_zero_hops(init, d, s, p);
        }
    }

    proof fn lemma_bound_walk_next_round(
        self,
        init: Seq<Option<i64>>,
        prev: Seq<Option<i64>>,
        d: Seq<Option<i64>>,
        k: nat,
        s: int,
        p: Seq<Step>,
    )
        requires
            self.wf(),
            prev.len() == self.n,
            d.len() == self.n,
            self.bounded_by_walks(init, prev, Some(k)),
            self.closed_n(prev, d),
            self.closed_p(d),
            improves(prev, d),
            self.is_walk(s, p),
            hops(p) <= k + 1,
            0 <= s < init.len(),
            init[s] is Some,
        ensures
            d[self.walk_end(s, p)] is Some,
            d[self.walk_end(s, p)].unwrap() <= init[s].unwrap() + self.walk_weight(s, p),
        decreases p.len(),
    {
        self.lemma_walk_end_in_range(s, p);
        if hops(p) <= k {
            assert(within(p, Some(k)));
            let v = self.walk_end(s, p);
            assert(prev[v] is Some);
            assert(d[v] is Some && d[v].unwrap() <= prev[v].unwrap());
        } else {
            assert(p.len() > 0);
            let q = p.drop_last();
            let st = p.last();
            let x = self.walk_end(s, q);
            self.lemma_walk_end_in_range(s, q);
            assert(self.is_walk(s, q));
            if st.0 {
                assert(within(q, Some(k)));
                assert(prev[x] is Some);
                assert(self.nedges[x][st.1].2);
            } else {
                self.lemma_bound_walk_next_round(init, prev, d, k, s, q);
                assert(d[x] is Some);
            }
        }
    }

    /// One round of "relax the negative edges, then close under the non-negative
    /// edges" extends a bound over `k`-hop walks to `k + 1`-hop walks.
    pub proof fn lemma_bounded_next_round(
        self,
        init: Seq<Option<i64>>,
        prev: Seq<Option<i64>>,
        d: Seq<Option<i64>>,
        k: nat,
    )
        requires
            self.wf(),
            prev.len() == self.n,
            d.len() == self.n,
            self.bounded_by_walks(init, prev, Some(k)),
            self.closed_n(prev, d),
            self.closed_p(d),
            improves(prev, d),
        ensures
            self.bounded_by_walks(init, d, Some(k + 1)),
    {
        assert forall|s: int, p: Seq<Step>|
            #![trigger self.is_walk(s, p), init[s]]
            self.is_walk(s, p) && within(p, Some(k + 1)) && 0 <= s < init.len() && init[s] is Some implies {
                let v = self.walk_end(s, p);
                &&& d[v] is Some
                &&& d[v].unwrap() <= init[s].unwrap() + self.walk_weight(s, p)
            } by {
            self.lemma_bound_walk_next_round(init, prev, d, k, s, p);
        }
    }

    proof fn lemma_bound_walk_closed(
        self,
        init: Seq<Option<i64>>,
        d: Seq<Option<i64>>,
        s: int,
        p: Seq<Step>,
    )
        requires
            self.wf(),
            d.len() == self.n,
            self.closed_p(d),
            self.closed_n(d, d),
            improves(init, d),
            self.is_walk(s, p),
            0 <= s < init.len(),
            init[s] is Some,
        ensures
            d[self.walk_end(s, p)] is Some,
            d[self.walk_end(s, p)].unwrap() <= init[s].unwrap() + self.walk_weight(s, p),
        decreases p.len(),
    {
        if p.len() > 0 {
            let q = p.drop_last();
            let st = p.last();
            self.lemma_bound_walk_closed(init, d, s, q);
            let x = self.walk_end(s, q);
            self.lemma_walk_end_in_range(s, q);
            assert(d[x] is Some);
            if st.0 {
                assert(self.nedges[x][st.1].2);
            }
        }
    }

    /// A labelling closed under every active edge and below the start labels
    /// bounds every walk.
    pub proof fn lemma_bounded_closed(self, init: Seq<Option<i64>>, d: Seq<Option<i64>>, h: Option<nat>)
        requires
            self.wf(),
            d.len() == self.n,
            self.closed_p(d),
            self.closed_n(d, d),
            improves(init, d),
        ensures
            self.bounded_by_walks(init, d, h),
    {
        assert forall|s: int, p: Seq<Step>|
            #![trigger self.is_walk(s, p), init[s]]
            self.is_walk(s, p) && within(p, h) && 0 <= s < init.len() && init[s] is Some implies {
                let v = self.walk_end(s, p);
                &&& d[v] is Some
                &&& d[v].unwrap() <= init[s].unwrap() + self.walk_weight(s, p)
            } by {
            self.lemma_bound_walk_closed(init, d, s, p);
        }
    }

    /// Labels carried with origins reach their vertex as plain distances too.
    pub proof fn lemma_reaches_from_dists(
        self,
        init: Seq<Option<(i64, usize)>>,
        v: int,
        d: int,
        o: usize,
        h: Option<nat>,
    )
        requires
            self.reaches_from(init, v, d, o, h),
        ensures
            self.reaches(dists(init), v, d, h),
    {
        reveal(GraphModel::reaches);
        reveal(GraphModel::reaches_from);
        let (s, p) = choose|s: int, p: Seq<Step>|
            #![trigger self.is_walk(s, p), init[s]]
            {
                &&& self.is_walk(s, p)
                &&& self.walk_end(s, p) == v
                &&& within(p, h)
                &&& 0 <= s < init.len()
                &&& init[s] is Some
                &&& init[s].unwrap().1 == o
                &&& init[s].unwrap().0 + self.walk_weight(s, p) == d
            };
        assert(dists(init)[s] == Some(init[s].unwrap().0));
    }

    /// Extending a witnessing walk by one step.
    pub proof fn lemma_reaches_from_step(
        self,
        init: Seq<Option<(i64, usize)>>,
        x: int,
        d: int,
        o: usize,
        k: nat,
        st: Step,
    )
        requires
            self.reaches_from(init, x, d, o, Some(k)),
            self.step_ok(x, st),
        ensures
            self.reaches_from(
                init,
                self.step_target(x, st),
                d + self.step_weight(x, st),
                o,
                Some(k + if st.0 {
                    1nat
                } else {
                    0nat
                }),
            ),
    {
        reveal(GraphModel::reaches);
        reveal(GraphModel::reaches_from);
        let (s, p) = choose|s: int, p: Seq<Step>|
            #![trigger self.is_walk(s, p), init[s]]
            {
                &&& self.is_walk(s, p)
                &&& self.walk_end(s, p) == x
                &&& within(p, Some(k))
                &&& 0 <= s < init.len()
                &&& init[s] is Some
                &&& init[s].unwrap().1 == o
                &&& init[s].unwrap().0 + self.walk_weight(s, p) == d
            };
        self.lemma_walk_push(s, p, st);
        let q = p.push(st);
        assert(self.is_walk(s, q));
        assert(within(q, Some(k + if st.0 { 1nat } else { 0nat })));
    }

    /// Chaining: a walk witnessing a label of `mid`, followed by a walk from that
    /// vertex, witnesses a label reached from `init`.
    pub proof fn lemma_reaches_from_chain(
        self,
        init: Seq<Option<(i64, usize)>>,
        mid: Seq<Option<(i64, usize)>>,
        v: int,
        d: int,
        o: usize,
        k1: nat,
        k2: nat,
    )
        requires
            forall|x: int|
                0 <= x < mid.len() && (#[trigger] mid[x]) is Some ==> self.reaches_from(
                    init,
                    x,
                    mid[x].unwrap().0 as int,
                    mid[x].unwrap().1,
                    Some(k1),
                ),
            self.reaches_from(mid, v, d, o, Some(k2)),
        ensures
            self.reaches_from(init, v, d, o, Some(k1 + k2)),
    {
        reveal(GraphModel::reaches);
        reveal(GraphModel::reaches_from);
        let (x, q) = choose|s: int, p: Seq<Step>|
            #![trigger self.is_walk(s, p), mid[s]]
            {
                &&& self.is_walk(s, p)
                &&& self.walk_end(s, p) == v
                &&& within(p, Some(k2))
                &&& 0 <= s < mid.len()
                &&& mid[s] is Some
                &&& mid[s].unwrap().1 == o
                &&& mid[s].unwrap().0 + self.walk_weight(s, p) == d
            };
        assert(self.reaches_from(init, x, mid[x].unwrap().0 as int, mid[x].unwrap().1, Some(k1)));
        let (s, p) = choose|s: int, p: Seq<Step>|
            #![trigger self.is_walk(s, p), init[s]]
            {
                &&& self.is_walk(s, p)
                &&& self.walk_end(s, p) == x
                &&& within(p, Some(k1))
                &&& 0 <= s < init.len()
                &&& init[s] is Some
                &&& init[s].unwrap().1 == o
                &&& init[s].unwrap().0 + self.walk_weight(s, p) == mid[x].unwrap().0
            };
        self.lemma_walk_concat(s, p, q);
        assert(self.is_walk(s, p + q));
    }
}


pub proof fn lemma_rows_len_p_prefix(rows: Seq<Seq<(usize, i64)>>, u: int)
    requires
        0 <= u < rows.len(),
    ensures
        rows_len_p(rows.take(u + 1)) == rows_len_p(rows.take(u)) + rows[u].len(),
        rows_len_p(rows.take(u + 1)) <= rows_len_p(rows),
    decreases rows.len(),
{
    assert(rows.take(u + 1).drop_last() =~= rows.take(u));
    if u + 1 < rows.len() {
        assert(rows.drop_last().take(u + 1) =~= rows.take(u + 1));
        assert(rows.drop_last().take(u) =~= rows.take(u));
        lemma_rows_len_p_prefix(rows.drop_last(), u);
    } else {
        assert(rows.take(u + 1) =~= rows);
    }
}

pub proof fn lemma_rows_len_n_prefix(rows: Seq<Seq<(usize, i64, bool)>>, u: int)
    requires
        0 <= u < rows.len(),
    ensures
        rows_len_n(rows.take(u + 1)) == rows_len_n(rows.take(u)) + rows[u].len(),
        rows_len_n(rows.take(u + 1)) <= rows_len_n(rows),
    decreases rows.len(),
{
    assert(rows.take(u + 1).drop_last() =~= rows.take(u));
    if u + 1 < rows.len() {
        assert(rows.drop_last().take(u + 1) =~= rows.take(u + 1));
        assert(rows.drop_last().take(u) =~= rows.take(u));
        lemma_rows_len_n_prefix(rows.drop_last(), u);
    } else {
        assert(rows.take(u + 1) =~= rows);
    }
}

impl GraphModel {
    /// A walk splits at any position into a prefix walk and a suffix walk.
    pub proof fn lemma_walk_split(self, s: int, p: Seq<Step>, i: int)
        requires
            self.wf(),
            self.is_walk(s, p),
            0 <= i <= p.len(),
        ensures
            self.is_walk(s, p.take(i)),
            self.is_walk(self.walk_end(s, p.take(i)), p.skip(i)),
            self.walk_end(s, p) == self.walk_end(self.walk_end(s, p.take(i)), p.skip(i)),
            self.walk_weight(s, p) == self.walk_weight(s, p.take(i)) + self.walk_weight(
                self.walk_end(s, p.take(i)),
                p.skip(i),
            ),
        decreases p.len(),
    {
        if i == p.len() {
            assert(p.take(i) =~= p);
            assert(p.skip(i) =~= Seq::<Step>::empty());
            self.lemma_walk_prefix(s, p, i);
            self.lemma_walk_end_in_range(s, p);
        } else {
            let q = p.drop_last();
            self.lemma_walk_split(s, q, i);
            assert(q.take(i) =~= p.take(i));
            assert(p.skip(i) =~= q.skip(i).push(p.last()));
            let m = self.walk_end(s, p.take(i));
            self.lemma_walk_push(m, q.skip(i), p.last());
        }
    }

    /// Without negative cycles, every walk can be shortened below `n` steps
    /// without raising its weight.
    pub proof fn lemma_short_walk(self, s: int, p: Seq<Step>) -> (q: Seq<Step>)
        requires
            self.wf(),
            self.is_walk(s, p),
            !self.has_negative_cycle(),
        ensures
            self.is_walk(s, q),
            self.walk_end(s, q) == self.walk_end(s, p),
            q.len() < self.n,
            self.walk_weight(s, q) <= self.walk_weight(s, p),
        decreases p.len(),
    {
        if p.len() < self.n {
            p
        } else {
            let verts = Seq::new((p.len() + 1) as nat, |i: int| self.walk_end(s, p.take(i)));
            assert forall|i: int| 0 <= i < verts.len() implies 0 <= #[trigger] verts[i] < self.n by {
                self.lemma_walk_prefix(s, p, i);
                self.lemma_walk_end_in_range(s, p.take(i));
            }
            if verts.no_duplicates() {
                verts.unique_seq_to_set();
                assert(verts.to_set().subset_of(vstd::set_lib::set_int_range(0, self.n as int))) by {
                    assert forall|x: int| verts.to_set().contains(x) implies vstd::set_lib::set_int_range(0, self.n as int).contains(x) by {
                        let k = choose|k: int| 0 <= k < verts.len() && verts[k] == x;
                        assert(0 <= verts[k] < self.n);
                    }
                }
                vstd::set_lib::lemma_int_range(0, self.n as int);
                vstd::set_lib::lemma_len_subset(verts.to_set(), vstd::set_lib::set_int_range(0, self.n as int));
                assert(false);
                p
            } else {
                let (i0, j0) = choose|i: int, j: int|
                    0 <= i < verts.len() && 0 <= j < verts.len() && i != j && verts[i] == verts[j];
                let i = if i0 < j0 { i0 } else { j0 };
                let j = if i0 < j0 { j0 } else { i0 };
                assert(verts[i] == verts[j]);
                // p = p.take(i) + c + p.skip(j), with c a closed walk at verts[i]
                self.lemma_walk_split(s, p, j);
                let pj = p.take(j);
                self.lemma_walk_split(s, pj, i);
                assert(pj.take(i) =~= p.take(i));
                let c = pj.skip(i);
                let m = self.walk_end(s, p.take(i));
                assert(self.walk_end(s, pj) == verts[j]);
                assert(m == verts[i]);
                assert(self.walk_end(m, c) == m);
                assert(c.len() > 0);
                if self.walk_weight(m, c) < 0 {
                    assert(self.is_walk(m, c));
                    assert(self.has_negative_cycle());
                }
                let r = p.take(i) + p.skip(j);
                self.lemma_walk_concat(s, p.take(i), p.skip(j));
                assert(r.len() < p.len());
                self.lemma_short_walk(s, r)
            }
        }
    }

    /// A potential that no active edge can improve (and that is below the
    /// start labels) rules out negative cycles.
    pub proof fn lemma_potential_bounds_walk(self, d: Seq<i64>, s: int, p: Seq<Step>)
        requires
            self.wf(),
            self.eliminates(d),
            self.is_walk(s, p),
        ensures
            d[self.walk_end(s, p)] <= d[s] + self.walk_weight(s, p),
        decreases p.len(),
    {
        if p.len() > 0 {
            let q = p.drop_last();
            self.lemma_potential_bounds_walk(d, s, q);
            let x = self.walk_end(s, q);
            self.lemma_walk_end_in_range(s, q);
            let st = p.last();
            if st.0 {
                assert(self.nedges[x][st.1].2);
            } else {
                assert(self.pedges[x][st.1].1 == self.pedges[x][st.1].1);
            }
        }
    }

    /// A graph with an eliminating potential has no negative cycle.
    pub proof fn lemma_potential_no_negative_cycle(self, d: Seq<i64>)
        requires
            self.wf(),
            self.eliminates(d),
        ensures
            !self.has_negative_cycle(),
    {
        if self.has_negative_cycle() {
            let (s, p) = choose|s: int, p: Seq<Step>|
                #[trigger] self.is_walk(s, p) && p.len() > 0 && self.walk_end(s, p) == s
                    && self.walk_weight(s, p) < 0;
            self.lemma_potential_bounds_walk(d, s, p);
        }
    }
}

impl GraphModel {
    /// Extending a witnessing walk (no hop limit) by one step.
    pub proof fn lemma_reaches_step_any(self, init: Seq<Option<i64>>, x: int, d: int, st: Step)
        requires
            self.reaches(init, x, d, None),
            self.step_ok(x, st),
        ensures
            self.reaches(init, self.step_target(x, st), d + self.step_weight(x, st), None),
    {
        reveal(GraphModel::reaches);
        reveal(GraphModel::reaches_from);
        let (s, p) = choose|s: int, p: Seq<Step>|
            #![trigger self.is_walk(s, p), init[s]]
            {
                &&& self.is_walk(s, p)
                &&& self.walk_end(s, p) == x
                &&& within(p, None)
                &&& 0 <= s < init.len()
                &&& init[s] is Some
                &&& init[s].unwrap() + self.walk_weight(s, p) == d
            };
        self.lemma_walk_push(s, p, st);
        assert(self.is_walk(s, p.push(st)));
    }

    /// A witness of `reaches` from the all-zero labels: a walk of weight `d` ending at `v`.
    pub proof fn lemma_reaches_any_witness(self, init: Seq<Option<i64>>, v: int, d: int) -> (sp: (
        int,
        Seq<Step>,
    ))
        requires
            self.reaches(init, v, d, None),
            forall|i: int| 0 <= i < init.len() ==> #[trigger] init[i] == Some(0i64),
        ensures
            self.is_walk(sp.0, sp.1),
            self.walk_end(sp.0, sp.1) == v,
            self.walk_weight(sp.0, sp.1) == d,
    {
        reveal(GraphModel::reaches);
        reveal(GraphModel::reaches_from);
        let (s, p) = choose|s: int, p: Seq<Step>|
            #![trigger self.is_walk(s, p), init[s]]
            {
                &&& self.is_walk(s, p)
                &&& self.walk_end(s, p) == v
                &&& within(p, None)
                &&& 0 <= s < init.len()
                &&& init[s] is Some
                &&& init[s].unwrap() + self.walk_weight(s, p) == d
            };
        (s, p)
    }
}

/// The integers of a sequence of `i64`.
pub open spec fn ints(p: Seq<i64>) -> Seq<int> {
    p.map_values(|x: i64| x as int)
}

/// The price `-p`.
pub open spec fn negated(p: Seq<int>) -> Seq<int> {
    p.map_values(|x: int| -x)
}

impl GraphModel {
    /// `other` is this graph under the price `p`: same edges, each weight `w` of
    /// `u -> v` replaced by `w + p[u] - p[v]`.
    pub open spec fn repriced(self, other: GraphModel, p: Seq<int>) -> bool {
        &&& other.n == self.n
        &&& other.pedges.len() == self.pedges.len()
        &&& other.nedges.len() == self.nedges.len()
        &&& forall|u: int| 0 <= u < self.pedges.len() ==> (#[trigger] other.pedges[u]).len() == self.pedges[u].len()
        &&& forall|u: int| 0 <= u < self.nedges.len() ==> (#[trigger] other.nedges[u]).len() == self.nedges[u].len()
        &&& forall|u: int, j: int|
            0 <= u < self.pedges.len() && 0 <= j < self.pedges[u].len() ==> {
                &&& (#[trigger] other.pedges[u][j]).0 == self.pedges[u][j].0
                &&& other.pedges[u][j].1 == self.pedges[u][j].1 + p[u] - p[self.pedges[u][j].0 as int]
            }
        &&& forall|u: int, j: int|
            0 <= u < self.nedges.len() && 0 <= j < self.nedges[u].len() ==> {
                &&& (#[trigger] other.nedges[u][j]).0 == self.nedges[u][j].0
                &&& other.nedges[u][j].2 == self.nedges[u][j].2
                &&& other.nedges[u][j].1 == self.nedges[u][j].1 + p[u] - p[self.nedges[u][j].0 as int]
            }
    }

    /// Johnson's reweighting: under a price `p` the walks are the same, keep their
    /// hop count, and each walk from `s` to `v` changes weight by exactly `p[s] - p[v]`.
    pub proof fn lemma_reprice_walk(self, other: GraphModel, p: Seq<int>, s: int, q: Seq<Step>)
        requires
            self.wf(),
            self.repriced(other, p),
            self.is_walk(s, q),
        ensures
            other.is_walk(s, q),
            other.walk_end(s, q) == self.walk_end(s, q),
            other.walk_weight(s, q) == self.walk_weight(s, q) + p[s] - p[self.walk_end(s, q)],
        decreases q.len(),
    {
        if q.len() > 0 {
            let r = q.drop_last();
            self.lemma_reprice_walk(other, p, s, r);
            let x = self.walk_end(s, r);
            self.lemma_walk_end_in_range(s, r);
            let st = q.last();
            if st.0 {
                assert(other.nedges[x][st.1] == other.nedges[x][st.1]);
            } else {
                assert(other.pedges[x][st.1] == other.pedges[x][st.1]);
            }
        }
    }

    /// The walks of a repriced graph are walks of the graph, with the weight moved
    /// back by `p[v] - p[s]`.
    pub proof fn lemma_reprice_walk_back(self, other: GraphModel, p: Seq<int>, s: int, q: Seq<Step>)
        requires
            self.wf(),
            self.repriced(other, p),
            other.is_walk(s, q),
        ensures
            self.is_walk(s, q),
            self.walk_end(s, q) == other.walk_end(s, q),
            other.walk_weight(s, q) == self.walk_weight(s, q) + p[s] - p[self.walk_end(s, q)],
        decreases q.len(),
    {
        if q.len() > 0 {
            let r = q.drop_last();
            self.lemma_reprice_walk_back(other, p, s, r);
            let x = self.walk_end(s, r);
            let st = q.last();
            if st.0 {
                assert(other.nedges[x].len() == self.nedges[x].len());
                assert(other.nedges[x][st.1] == other.nedges[x][st.1]);
            } else {
                assert(other.pedges[x].len() == self.pedges[x].len());
                assert(other.pedges[x][st.1] == other.pedges[x][st.1]);
            }
        }
    }

    /// Repricing by `p` and then by `-p` gives back the starting graph.
    pub proof fn lemma_reprice_undo(self, mid: GraphModel, last: GraphModel, p: Seq<int>)
        requires
            self.wf(),
            self.repriced(mid, p),
            mid.repriced(last, negated(p)),
            p.len() >= self.n,
        ensures
            last == self,
    {
        assert(last.pedges.len() == self.pedges.len());
        assert forall|u: int| 0 <= u < self.pedges.len() implies last.pedges[u] =~= self.pedges[u] by {
            assert forall|j: int| 0 <= j < self.pedges[u].len() implies last.pedges[u][j] == self.pedges[u][j] by {
                let v = self.pedges[u][j].0 as int;
                assert(mid.pedges[u][j].0 == v);
                assert(negated(p)[u] == -p[u]);
                assert(negated(p)[v] == -p[v]);
            }
        }
        assert forall|u: int| 0 <= u < self.nedges.len() implies last.nedges[u] =~= self.nedges[u] by {
            assert forall|j: int| 0 <= j < self.nedges[u].len() implies last.nedges[u][j] == self.nedges[u][j] by {
                let v = self.nedges[u][j].0 as int;
                assert(mid.nedges[u][j].0 == v);
                assert(negated(p)[u] == -p[u]);
                assert(negated(p)[v] == -p[v]);
            }
        }
        assert(last.pedges =~= self.pedges);
        assert(last.nedges =~= self.nedges);
    }
}

pub proof fn lemma_improves_trans(a: Seq<Option<i64>>, b: Seq<Option<i64>>, c: Seq<Option<i64>>)
    requires
        improves(a, b),
        improves(b, c),
        a.len() <= b.len(),
    ensures
        improves(a, c),
{
    assert forall|v: int| 0 <= v < a.len() && (#[trigger] a[v]) is Some implies c[v] is Some && c[v].unwrap() <= a[v].unwrap() by {
        assert(b[v] is Some);
    }
}

impl GraphModel {
    pub proof fn lemma_closed_n_improves(self, prev: Seq<Option<i64>>, mid: Seq<Option<i64>>, d: Seq<Option<i64>>)
        requires
            self.wf(),
            mid.len() == self.n,
            self.closed_n(prev, mid),
            improves(mid, d),
        ensures
            self.closed_n(prev, d),
    {
        assert forall|u: int, j: int|
            0 <= u < self.n && 0 <= j < self.nedges[u].len() && (#[trigger] prev[u]) is Some
                && #[trigger] self.nedges[u][j].2 implies d[self.nedges[u][j].0 as int] is Some
                && d[self.nedges[u][j].0 as int].unwrap() <= prev[u].unwrap() + self.nedges[u][j].1 by {
            let t = self.nedges[u][j].0 as int;
            assert(mid[t] is Some);
        }
    }

    /// Some vertex is reached by a walk with at most `h + 1` negative hops that is
    /// lighter than every walk to it with at most `h` negative hops (the empty walk
    /// included): the `h`-hop distances from all vertices are not final.
    pub open spec fn needs_more_hops(self, h: nat) -> bool {
        exists|s: int, p: Seq<Step>|
            #[trigger] self.is_walk(s, p) && hops(p) <= h + 1 && forall|s2: int, p2: Seq<Step>|
                #[trigger] self.is_walk(s2, p2) && self.walk_end(s2, p2) == self.walk_end(s, p)
                    && hops(p2) <= h ==> self.walk_weight(s, p) < self.walk_weight(s2, p2)
    }

    /// When the `h`-hop distance from all vertices is already the unbounded distance,
    /// no vertex needs more hops.
    pub proof fn lemma_final_no_more_hops(self, d: Seq<Option<i64>>, h: nat)
        requires
            self.wf(),
            self.is_hop_dist(all_zero(self.n), d, h),
            self.is_dist(all_zero(self.n), d),
        ensures
            !self.needs_more_hops(h),
    {
        reveal(GraphModel::reaches);
        reveal(GraphModel::reaches_from);
        if self.needs_more_hops(h) {
            let (s, p) = choose|s: int, p: Seq<Step>|
                #[trigger] self.is_walk(s, p) && hops(p) <= h + 1 && forall|s2: int, p2: Seq<Step>|
                    #[trigger] self.is_walk(s2, p2) && self.walk_end(s2, p2) == self.walk_end(s, p)
                        && hops(p2) <= h ==> self.walk_weight(s, p) < self.walk_weight(s2, p2);
            let v = self.walk_end(s, p);
            self.lemma_walk_end_in_range(s, p);
            self.lemma_walk_start_in_range(s, p);
            let z = all_zero(self.n);
            assert(z[s] == Some(0i64));
            assert(within(p, None));
            assert(d[v] is Some);
            assert(self.reaches(z, v, d[v].unwrap() as int, Some(h)));
            let (s2, p2) = choose|s2: int, p2: Seq<Step>|
                #![trigger self.is_walk(s2, p2), z[s2]]
                {
                    &&& self.is_walk(s2, p2)
                    &&& self.walk_end(s2, p2) == v
                    &&& within(p2, Some(h))
                    &&& 0 <= s2 < z.len()
                    &&& z[s2] is Some
                    &&& z[s2].unwrap() + self.walk_weight(s2, p2) == d[v].unwrap()
                };
            assert(z[s2] == Some(0i64));
        }
    }
}

/// `b` improves on `a` (labels with origins, compared by distance).
pub open spec fn improves_o(a: Seq<Option<(i64, usize)>>, b: Seq<Option<(i64, usize)>>) -> bool {
    forall|v: int|
        0 <= v < a.len() && (#[trigger] a[v]) is Some ==> b[v] is Some && b[v].unwrap().0 <= a[v].unwrap().0
}

pub proof fn lemma_improves_o_dists(a: Seq<Option<(i64, usize)>>, b: Seq<Option<(i64, usize)>>)
    requires
        improves_o(a, b),
        a.len() == b.len(),
    ensures
        improves(dists(a), dists(b)),
{
    assert forall|v: int| 0 <= v < dists(a).len() && (#[trigger] dists(a)[v]) is Some implies dists(b)[v] is Some
        && dists(b)[v].unwrap() <= dists(a)[v].unwrap() by {
        assert(a[v] is Some);
    }
}

/// Every label of `out` is attained from `init` within `k` hops.
pub open spec fn attained_from(
    g: GraphModel,
    init: Seq<Option<(i64, usize)>>,
    out: Seq<Option<(i64, usize)>>,
    k: nat,
) -> bool {
    forall|v: int|
        0 <= v < g.n && (#[trigger] out[v]) is Some ==> g.reaches_from(
            init,
            v,
            out[v].unwrap().0 as int,
            out[v].unwrap().1,
            Some(k),
        )
}

impl GraphModel {
    pub proof fn lemma_attained_chain(
        self,
        init: Seq<Option<(i64, usize)>>,
        mid: Seq<Option<(i64, usize)>>,
        out: Seq<Option<(i64, usize)>>,
        k1: nat,
        k2: nat,
    )
        requires
            mid.len() == self.n,
            attained_from(self, init, mid, k1),
            attained_from(self, mid, out, k2),
        ensures
            attained_from(self, init, out, k1 + k2),
    {
        assert forall|v: int| 0 <= v < self.n && (#[trigger] out[v]) is Some implies self.reaches_from(
            init,
            v,
            out[v].unwrap().0 as int,
            out[v].unwrap().1,
            Some(k1 + k2),
        ) by {
            self.lemma_reaches_from_chain(init, mid, v, out[v].unwrap().0 as int, out[v].unwrap().1, k1, k2);
        }
    }

    /// Every label is attained from itself by the empty walk.
    pub proof fn lemma_attained_self(self, d: Seq<Option<(i64, usize)>>, k: nat)
        requires
            d.len() == self.n,
        ensures
            attained_from(self, d, d, k),
    {
        reveal(GraphModel::reaches);
        reveal(GraphModel::reaches_from);
        assert forall|v: int| 0 <= v < self.n && (#[trigger] d[v]) is Some implies self.reaches_from(
            d,
            v,
            d[v].unwrap().0 as int,
            d[v].unwrap().1,
            Some(k),
        ) by {
            let p = Seq::<Step>::empty();
            assert(self.is_walk(v, p));
            assert(within(p, Some(k)));
        }
    }

    /// Attainment within `k` hops is attainment within `k2 >= k` hops.
    pub proof fn lemma_attained_weaken(self, init: Seq<Option<(i64, usize)>>, out: Seq<Option<(i64, usize)>>, k: nat, k2: nat)
        requires
            attained_from(self, init, out, k),
            k <= k2,
        ensures
            attained_from(self, init, out, k2),
    {
        reveal(GraphModel::reaches);
        reveal(GraphModel::reaches_from);
        assert forall|v: int| 0 <= v < self.n && (#[trigger] out[v]) is Some implies self.reaches_from(
            init,
            v,
            out[v].unwrap().0 as int,
            out[v].unwrap().1,
            Some(k2),
        ) by {
            let (s, p) = choose|s: int, p: Seq<Step>|
                #![trigger self.is_walk(s, p), init[s]]
                {
                    &&& self.is_walk(s, p)
                    &&& self.walk_end(s, p) == v
                    &&& within(p, Some(k))
                    &&& 0 <= s < init.len()
                    &&& init[s] is Some
                    &&& init[s].unwrap().1 == out[v].unwrap().1
                    &&& init[s].unwrap().0 + self.walk_weight(s, p) == out[v].unwrap().0
                };
            assert(within(p, Some(k2)));
        }
    }
}

impl GraphModel {
    /// A labelled start reaches itself by the empty walk.
    pub proof fn lemma_reaches_start(self, init: Seq<Option<i64>>, v: int, h: Option<nat>)
        requires
            0 <= v < self.n,
            v < init.len(),
            init[v] is Some,
        ensures
            self.reaches(init, v, init[v].unwrap() as int, h),
    {
        reveal(GraphModel::reaches);
        let p = Seq::<Step>::empty();
        assert(self.is_walk(v, p));
        assert(within(p, h));
    }
}

impl GraphModel {
    /// A labelled start reaches itself (with its origin) by the empty walk.
    pub proof fn lemma_reaches_from_start(self, init: Seq<Option<(i64, usize)>>, v: int, h: Option<nat>)
        requires
            0 <= v < self.n,
            v < init.len(),
            init[v] is Some,
        ensures
            self.reaches_from(init, v, init[v].unwrap().0 as int, init[v].unwrap().1, h),
    {
        reveal(GraphModel::reaches_from);
        let p = Seq::<Step>::empty();
        assert(self.is_walk(v, p));
        assert(within(p, h));
    }
}

/// The hop limit `a` is at most `b`.
pub open spec fn hop_le(a: Option<nat>, b: Option<nat>) -> bool {
    match (a, b) {
        (_, None) => true,
        (Some(x), Some(y)) => x <= y,
        (None, Some(_)) => false,
    }
}

impl GraphModel {
    pub proof fn lemma_reaches_weaken(self, init: Seq<Option<i64>>, v: int, d: int, a: Option<nat>, b: Option<nat>)
        requires
            self.reaches(init, v, d, a),
            hop_le(a, b),
        ensures
            self.reaches(init, v, d, b),
    {
        reveal(GraphModel::reaches);
        let (s, p) = choose|s: int, p: Seq<Step>|
            #![trigger self.is_walk(s, p), init[s]]
            {
                &&& self.is_walk(s, p)
                &&& self.walk_end(s, p) == v
                &&& within(p, a)
                &&& 0 <= s < init.len()
                &&& init[s] is Some
                &&& init[s].unwrap() + self.walk_weight(s, p) == d
            };
        assert(within(p, b));
    }

    pub proof fn lemma_bounded_weaken(self, init: Seq<Option<i64>>, d: Seq<Option<i64>>, a: Option<nat>, b: Option<nat>)
        requires
            self.bounded_by_walks(init, d, b),
            hop_le(a, b),
        ensures
            self.bounded_by_walks(init, d, a),
    {
        assert forall|s: int, p: Seq<Step>|
            #![trigger self.is_walk(s, p), init[s]]
            self.is_walk(s, p) && within(p, a) && 0 <= s < init.len() && init[s] is Some implies {
                let v = self.walk_end(s, p);
                &&& d[v] is Some
                &&& d[v].unwrap() <= init[s].unwrap() + self.walk_weight(s, p)
            } by {
            assert(within(p, b));
        }
    }

    /// A witness of `reaches_from`.
    pub proof fn lemma_reaches_from_witness(
        self,
        init: Seq<Option<(i64, usize)>>,
        v: int,
        d: int,
        o: usize,
        h: Option<nat>,
    ) -> (sp: (int, Seq<Step>))
        requires
            self.reaches_from(init, v, d, o, h),
        ensures
            self.is_walk(sp.0, sp.1),
            self.walk_end(sp.0, sp.1) == v,
            within(sp.1, h),
            0 <= sp.0 < init.len(),
            init[sp.0] is Some,
            init[sp.0].unwrap().0 + self.walk_weight(sp.0, sp.1) == d,
    {
        reveal(GraphModel::reaches_from);
        choose|s: int, p: Seq<Step>|
            #![trigger self.is_walk(s, p), init[s]]
            {
                &&& self.is_walk(s, p)
                &&& self.walk_end(s, p) == v
                &&& within(p, h)
                &&& 0 <= s < init.len()
                &&& init[s] is Some
                &&& init[s].unwrap().1 == o
                &&& init[s].unwrap().0 + self.walk_weight(s, p) == d
            }
    }

    /// A witness of `reaches`.
    pub proof fn lemma_reaches_witness(self, init: Seq<Option<i64>>, v: int, d: int, h: Option<nat>) -> (sp: (
        int,
        Seq<Step>,
    ))
        requires
            self.reaches(init, v, d, h),
        ensures
            self.is_walk(sp.0, sp.1),
            self.walk_end(sp.0, sp.1) == v,
            within(sp.1, h),
            0 <= sp.0 < init.len(),
            init[sp.0] is Some,
            init[sp.0].unwrap() + self.walk_weight(sp.0, sp.1) == d,
    {
        reveal(GraphModel::reaches);
        choose|s: int, p: Seq<Step>|
            #![trigger self.is_walk(s, p), init[s]]
            {
                &&& self.is_walk(s, p)
                &&& self.walk_end(s, p) == v
                &&& within(p, h)
                &&& 0 <= s < init.len()
                &&& init[s] is Some
                &&& init[s].unwrap() + self.walk_weight(s, p) == d
            }
    }

    /// Some start of `starts` reaches `v` by a walk of negative weight with at most
    /// `h` negative hops: `v` lies in the negative `h`-hop reach of `starts`.
    pub open spec fn in_negative_reach(self, starts: Seq<usize>, v: int, h: nat) -> bool {
        exists|i: int, p: Seq<Step>|
            0 <= i < starts.len() && #[trigger] self.is_walk(starts[i] as int, p) && self.walk_end(starts[i] as int, p)
                == v && hops(p) <= h && self.walk_weight(starts[i] as int, p) < 0
    }
}

impl GraphModel {
    /// Labels closed under every active edge form an eliminating potential.
    pub proof fn lemma_closed_eliminates(self, e: Seq<i64>)
        requires
            self.wf(),
            e.len() == self.n,
            self.closed_p(somes(e)),
            self.closed_n(somes(e), somes(e)),
        ensures
            self.eliminates(e),
    {
        let se = somes(e);
        assert forall|u: int, j: int| 0 <= u < self.n && 0 <= j < self.pedges[u].len() implies e[self.pedges[u][j].0 as int]
            <= e[u] + #[trigger] self.pedges[u][j].1 by {
            assert(se[u] is Some);
            let t = self.pedges[u][j].0 as int;
            assert(se[t] == Some(e[t]));
        }
        assert forall|u: int, j: int| 0 <= u < self.n && 0 <= j < self.nedges[u].len() && #[trigger] self.nedges[u][j].2
            implies e[self.nedges[u][j].0 as int] <= e[u] + self.nedges[u][j].1 by {
            assert(se[u] is Some);
            let t = self.nedges[u][j].0 as int;
            assert(se[t] == Some(e[t]));
        }
    }
}

impl GraphModel {
    /// Hop-bounded distances cannot be improved along a non-negative edge.
    pub proof fn lemma_hop_dist_closed_p(self, init: Seq<Option<i64>>, out: Seq<Option<i64>>, h: nat)
        requires
            self.wf(),
            self.is_hop_dist(init, out, h),
        ensures
            self.closed_p(out),
    {
        assert forall|u: int, j: int|
            0 <= u < self.n && 0 <= j < self.pedges[u].len() && (#[trigger] out[u]) is Some
                implies #[trigger] out[self.pedges[u][j].0 as int] is Some && out[self.pedges[u][j].0 as int].unwrap()
                <= out[u].unwrap() + self.pedges[u][j].1 by {
            let (s, p) = self.lemma_reaches_witness(init, u, out[u].unwrap() as int, Some(h));
            self.lemma_walk_push(s, p, (false, j));
            let q = p.push((false, j));
            assert(within(q, Some(h)));
            assert(self.is_walk(s, q));
        }
    }
}
/// A walk has at most as many hops as steps.
pub proof fn lemma_hops_le_len(p: Seq<Step>)
    ensures
        hops(p) <= p.len(),
    decreases p.len(),
{
    if p.len() > 0 {
        lemma_hops_le_len(p.drop_last());
    }
}

impl GraphModel {
    /// Allowing more negative hops can only lower the hop-bounded distances: with
    /// `h1 <= h2`, every vertex reached within `h1` hops is reached within `h2`
    /// hops, at a distance no larger.
    pub proof fn lemma_hop_dist_mono(
        self,
        init: Seq<Option<i64>>,
        d1: Seq<Option<i64>>,
        d2: Seq<Option<i64>>,
        h1: nat,
        h2: nat,
    )
        requires
            self.is_hop_dist(init, d1, h1),
            self.is_hop_dist(init, d2, h2),
            h1 <= h2,
        ensures
            improves(d1, d2),
    {
        assert forall|v: int| 0 <= v < d1.len() && (#[trigger] d1[v]) is Some implies d2[v] is Some && d2[v].unwrap()
            <= d1[v].unwrap() by {
            let (s, p) = self.lemma_reaches_witness(init, v, d1[v].unwrap() as int, Some(h1));
            assert(within(p, Some(h2)));
            assert(self.is_walk(s, p) && init[s] is Some);
        }
    }

    /// Without negative cycles, `n` negative hops are enough: an `h`-hop distance
    /// with `h >= n` is the unbounded distance.
    pub proof fn lemma_hop_dist_stable(self, init: Seq<Option<i64>>, d: Seq<Option<i64>>, h: nat)
        requires
            self.wf(),
            !self.has_negative_cycle(),
            self.is_hop_dist(init, d, h),
            h >= self.n,
        ensures
            self.is_dist(init, d),
    {
        assert forall|v: int| 0 <= v < self.n && (#[trigger] d[v]) is Some implies self.reaches(
            init,
            v,
            d[v].unwrap() as int,
            None,
        ) by {
            self.lemma_reaches_weaken(init, v, d[v].unwrap() as int, Some(h), None);
        }
        assert forall|s: int, p: Seq<Step>|
            #![trigger self.is_walk(s, p), init[s]]
            self.is_walk(s, p) && within(p, None) && 0 <= s < init.len() && init[s] is Some implies {
                let v = self.walk_end(s, p);
                &&& d[v] is Some
                &&& d[v].unwrap() <= init[s].unwrap() + self.walk_weight(s, p)
            } by {
            let q = self.lemma_short_walk(s, p);
            lemma_hops_le_len(q);
            assert(within(q, Some(h)));
            assert(self.is_walk(s, q) && init[s] is Some);
        }
    }

    /// The negative reach grows with the hop limit.
    pub proof fn lemma_negative_reach_mono(self, starts: Seq<usize>, v: int, h1: nat, h2: nat)
        requires
            self.in_negative_reach(starts, v, h1),
            h1 <= h2,
        ensures
            self.in_negative_reach(starts, v, h2),
    {
    }

    /// The negative reach of a set of starts is the union of the reaches of its
    /// members.
    pub proof fn lemma_negative_reach_union(self, starts: Seq<usize>, v: int, h: nat)
        ensures
            self.in_negative_reach(starts, v, h) <==> exists|i: int|
                0 <= i < starts.len() && #[trigger] self.in_negative_reach(seq![starts[i]], v, h),
    {
        if self.in_negative_reach(starts, v, h) {
            let (i, p) = choose|i: int, p: Seq<Step>|
                0 <= i < starts.len() && #[trigger] self.is_walk(starts[i] as int, p) && self.walk_end(starts[i] as int, p)
                    == v && hops(p) <= h && self.walk_weight(starts[i] as int, p) < 0;
            let one = seq![starts[i]];
            assert(one[0] == starts[i]);
            assert(self.in_negative_reach(one, v, h));
        }
        if exists|i: int| 0 <= i < starts.len() && #[trigger] self.in_negative_reach(seq![starts[i]], v, h) {
            let i = choose|i: int| 0 <= i < starts.len() && #[trigger] self.in_negative_reach(seq![starts[i]], v, h);
            let one = seq![starts[i]];
            let (k, p) = choose|k: int, p: Seq<Step>|
                0 <= k < one.len() && #[trigger] self.is_walk(one[k] as int, p) && self.walk_end(one[k] as int, p)
                    == v && hops(p) <= h && self.walk_weight(one[k] as int, p) < 0;
            assert(k == 0);
            assert(self.is_walk(starts[i] as int, p));
        }
    }
}

/// The sum of two prices.
/// `pq` is the sum of the prices `p` and `q` on the vertices `0..n`.
pub open spec fn sums_prices(n: int, p: Seq<int>, q: Seq<int>, pq: Seq<int>) -> bool {
    &&& p.len() >= n
    &&& q.len() >= n
    &&& pq.len() >= n
    &&& forall|u: int| 0 <= u < n ==> #[trigger] pq[u] == p[u] + q[u]
}

impl GraphModel {
    /// Repricing by `p` and then by `q` is repricing by `p + q`.
    pub proof fn lemma_reprice_compose(self, mid: GraphModel, last: GraphModel, p: Seq<int>, q: Seq<int>, pq: Seq<int>)
        requires
            self.wf(),
            self.repriced(mid, p),
            mid.repriced(last, q),
            sums_prices(self.n as int, p, q, pq),
        ensures
            self.repriced(last, pq),
    {
        assert forall|u: int, j: int| 0 <= u < self.pedges.len() && 0 <= j < self.pedges[u].len() implies {
            &&& (#[trigger] last.pedges[u][j]).0 == self.pedges[u][j].0
            &&& last.pedges[u][j].1 == self.pedges[u][j].1 + pq[u] - pq[self.pedges[u][j].0 as int]
        } by {
            assert(mid.pedges[u][j].0 == self.pedges[u][j].0);
            assert(pq[u] == p[u] + q[u]);
            assert(pq[self.pedges[u][j].0 as int] == p[self.pedges[u][j].0 as int] + q[self.pedges[u][j].0 as int]);
        }
        assert forall|u: int, j: int| 0 <= u < self.nedges.len() && 0 <= j < self.nedges[u].len() implies {
            &&& (#[trigger] last.nedges[u][j]).0 == self.nedges[u][j].0
            &&& last.nedges[u][j].2 == self.nedges[u][j].2
            &&& last.nedges[u][j].1 == self.nedges[u][j].1 + pq[u] - pq[self.nedges[u][j].0 as int]
        } by {
            assert(mid.nedges[u][j].0 == self.nedges[u][j].0);
            assert(pq[u] == p[u] + q[u]);
            assert(pq[self.nedges[u][j].0 as int] == p[self.nedges[u][j].0 as int] + q[self.nedges[u][j].0 as int]);
        }
    }

    /// A price determines the repriced graph.
    pub proof fn lemma_reprice_unique(self, a: GraphModel, b: GraphModel, p: Seq<int>)
        requires
            self.repriced(a, p),
            self.repriced(b, p),
        ensures
            a == b,
    {
        assert forall|u: int| 0 <= u < self.pedges.len() implies a.pedges[u] =~= b.pedges[u] by {
            assert forall|j: int| 0 <= j < self.pedges[u].len() implies a.pedges[u][j] == b.pedges[u][j] by {
                assert(a.pedges[u][j].0 == self.pedges[u][j].0);
                assert(b.pedges[u][j].0 == self.pedges[u][j].0);
            }
        }
        assert forall|u: int| 0 <= u < self.nedges.len() implies a.nedges[u] =~= b.nedges[u] by {
            assert forall|j: int| 0 <= j < self.nedges[u].len() implies a.nedges[u][j] == b.nedges[u][j] by {
                assert(a.nedges[u][j].0 == self.nedges[u][j].0);
                assert(b.nedges[u][j].0 == self.nedges[u][j].0);
            }
        }
        assert(a.pedges =~= b.pedges);
        assert(a.nedges =~= b.nedges);
    }

    /// A second Dijkstra pass changes nothing: if `d1` is the 0-hop distance from
    /// `init` and closed under the non-negative edges (as Dijkstra's result is),
    /// then the 0-hop distance from `d1` is `d1` itself.
    pub proof fn lemma_dijkstra_again(self, init: Seq<Option<i64>>, d1: Seq<Option<i64>>, d2: Seq<Option<i64>>)
        requires
            self.wf(),
            self.is_hop_dist(init, d1, 0),
            self.closed_p(d1),
            self.is_hop_dist(d1, d2, 0),
        ensures
            d2 == d1,
    {
        assert forall|v: int| 0 <= v < self.n implies d2[v] == d1[v] by {
            if d1[v] is Some {
                let e = Seq::<Step>::empty();
                assert(self.is_walk(v, e) && d1[v] is Some);
                assert(within(e, Some(0nat)));
            }
            if d2[v] is Some {
                let (s, p) = self.lemma_reaches_witness(d1, v, d2[v].unwrap() as int, Some(0nat));
                self.lemma_bound_walk_zero_hops(d1, d1, s, p);
            }
        }
        assert(d2 =~= d1);
    }
}

} // verus!
