//! Graphs as adjacency lists: building them, removing self-loops and parallel
//! edges, and splitting vertices so that every degree stays bounded.
use vstd::prelude::*;
use crate::paths::{rows_len_p, GraphModel, Step};
use crate::degree_split::{
    alloc_aux, alloc_ok, build_chains, assign_edges, Layout, rows_of, lists_follow, room, block_len, split_of, chain_fits, greedy_of, plain,
    walk_between, lemma_split_keeps_walks, lemma_room_mono, member, placed_row, images, slot_hi, slot_lo,
};

verus! {

/// A directed multigraph on vertices `0..n`; `edges[u]` lists the out-edges
/// `(target, weight)` of `u`.
#[derive(Debug, Clone)]
pub struct Graph {
    pub n: usize,
    pub edges: Vec<Vec<(usize, i64)>>,
}

/// Every adjacency row targets a vertex below `n`.
pub open spec fn targets_below(edges: Seq<Seq<(usize, i64)>>, n: int) -> bool {
    forall|u: int, j: int|
        0 <= u < edges.len() && 0 <= j < edges[u].len() ==> #[trigger] edges[u][j].0 < n
}

impl Graph {
    /// At most one row per vertex (a missing row has no edges) and every edge
    /// stays inside `0..n`.
    pub open spec fn well_formed(&self) -> bool {
        &&& self.edges@.len() <= self.n
        &&& targets_below(self.edges_view(), self.n as int)
    }

    /// The rows of the `n` vertices; rows past the end of `edges` are empty.
    pub open spec fn edges_view(&self) -> Seq<Seq<(usize, i64)>> {
        Seq::new(
            self.n as nat,
            |u: int|
                if u < self.edges@.len() {
                    self.edges@[u]@
                } else {
                    Seq::<(usize, i64)>::empty()
                },
        )
    }

    /// An edgeless graph on `n` vertices.
    pub fn new(n: usize) -> (g: Self)
        ensures
            g.n == n,
            g.edges@.len() == n,
            forall|u: int| 0 <= u < n ==> (#[trigger] g.edges@[u])@.len() == 0,
            g.well_formed(),
    {
        let mut edges: Vec<Vec<(usize, i64)>> = Vec::new();
        let mut i: usize = 0;
        while i < n
            invariant
                i <= n,
                edges@.len() == i,
                forall|u: int| 0 <= u < i ==> (#[trigger] edges@[u])@.len() == 0,
            decreases n - i,
        {
            edges.push(Vec::new());
            i += 1;
        }
        Graph { n, edges }
    }

    /// Appends the edge `u -> v` of weight `w` to the out-list of `u`.
    pub fn add_edge(&mut self, u: usize, v: usize, w: i64)
        requires
            u < old(self).n,
            v < old(self).n,
            u < old(self).edges@.len(),
        ensures
            final(self).n == old(self).n,
            final(self).edges@ == old(self).edges@.update(u as int, final(self).edges@[u as int]),
            final(self).edges@[u as int]@ == old(self).edges@[u as int]@.push((v, w)),
    {
        self.edges[u].push((v, w));
    }
}


/// No vertex has an edge to itself, and no vertex has two edges to the same target.
pub open spec fn simple(n: int, edges: Seq<Seq<(usize, i64)>>) -> bool {
    &&& edges.len() == n
    &&& targets_below(edges, n)
    &&& forall|u: int, j: int| 0 <= u < n && 0 <= j < edges[u].len() ==> #[trigger] edges[u][j].0 != u
    &&& forall|u: int, j: int, k: int|
        0 <= u < n && 0 <= j < k < edges[u].len() ==> #[trigger] edges[u][j].0 != #[trigger] edges[u][k].0
}

/// Number of entries of `row` that point to `v`.
pub open spec fn count_to(row: Seq<(usize, i64)>, v: int) -> nat
    decreases row.len(),
{
    if row.len() == 0 {
        0
    } else {
        count_to(row.drop_last(), v) + if row.last().0 == v {
            1nat
        } else {
            0nat
        }
    }
}

/// Number of edges into `v` from the rows `0..u`.
pub open spec fn in_upto(edges: Seq<Seq<(usize, i64)>>, u: int, v: int) -> nat
    decreases u,
{
    if u <= 0 {
        0
    } else {
        in_upto(edges, u - 1, v) + count_to(edges[u - 1], v)
    }
}

/// In-degree of `v`.
pub open spec fn in_degree(edges: Seq<Seq<(usize, i64)>>, v: int) -> nat {
    in_upto(edges, edges.len() as int, v)
}

/// `ceil(a / b)` for `b > 0`.
pub open spec fn ceil_div(a: int, b: int) -> int {
    if a % b == 0 {
        a / b
    } else {
        a / b + 1
    }
}

/// The degree allowance `ceil(4m / n) + 1` of a graph with `n` vertices and `m` edges.
pub open spec fn degree_bound(n: int, m: int) -> int {
    ceil_div(4 * m, n) + 1
}

/// Every in-degree and out-degree is at most the allowance (vacuous without edges).
pub open spec fn degrees_bounded(n: int, edges: Seq<Seq<(usize, i64)>>) -> bool {
    let m = rows_len_p(edges) as int;
    m == 0 || forall|u: int|
        #![trigger edges[u]]
        #![trigger in_degree(edges, u)]
        0 <= u < n ==> in_degree(edges, u) <= degree_bound(n, m) && edges[u].len() <= degree_bound(n, m)
}

pub proof fn lemma_count_to_take(row: Seq<(usize, i64)>, j: int, v: int)
    requires
        0 <= j < row.len(),
    ensures
        count_to(row.take(j + 1), v) == count_to(row.take(j), v) + if row[j].0 == v {
            1nat
        } else {
            0nat
        },
{
    assert(row.take(j + 1).drop_last() =~= row.take(j));
}

pub proof fn lemma_count_to_prefix(row: Seq<(usize, i64)>, j: int, v: int)
    requires
        0 <= j <= row.len(),
    ensures
        count_to(row.take(j), v) <= count_to(row, v),
    decreases row.len() - j,
{
    if j == row.len() {
        assert(row.take(j) =~= row);
    } else {
        lemma_count_to_take(row, j, v);
        lemma_count_to_prefix(row, j + 1, v);
    }
}

pub proof fn lemma_in_upto_mono(edges: Seq<Seq<(usize, i64)>>, u: int, w: int, v: int)
    requires
        0 <= u <= w,
    ensures
        in_upto(edges, u, v) <= in_upto(edges, w, v),
    decreases w - u,
{
    if u < w {
        lemma_in_upto_mono(edges, u, w - 1, v);
    }
}

/// In-degrees after appending `(t, w)` to the row of `a`.
pub proof fn lemma_in_upto_push(edges: Seq<Seq<(usize, i64)>>, a: int, t: usize, w: i64, u: int, v: int)
    requires
        0 <= a < edges.len(),
        0 <= u <= edges.len(),
    ensures
        in_upto(edges.update(a, edges[a].push((t, w))), u, v) == in_upto(edges, u, v) + if a < u && t
            == v {
            1nat
        } else {
            0nat
        },
    decreases u,
{
    if u > 0 {
        lemma_in_upto_push(edges, a, t, w, u - 1, v);
        let e2 = edges.update(a, edges[a].push((t, w)));
        if u - 1 == a {
            assert(e2[a].drop_last() =~= edges[a]);
        } else {
            assert(e2[u - 1] == edges[u - 1]);
        }
    }
}

pub proof fn lemma_rows_len_push(edges: Seq<Seq<(usize, i64)>>, a: int, t: usize, w: i64)
    requires
        0 <= a < edges.len(),
    ensures
        rows_len_p(edges.update(a, edges[a].push((t, w)))) == rows_len_p(edges) + 1,
    decreases edges.len(),
{
    let e2 = edges.update(a, edges[a].push((t, w)));
    if a == edges.len() - 1 {
        assert(e2.drop_last() =~= edges.drop_last());
    } else {
        assert(e2.drop_last() =~= edges.drop_last().update(a, edges[a].push((t, w))));
        lemma_rows_len_push(edges.drop_last(), a, t, w);
    }
}

/// Sum of a sequence of counters.
pub open spec fn seq_sum(s: Seq<usize>) -> int
    decreases s.len(),
{
    if s.len() == 0 {
        0
    } else {
        seq_sum(s.drop_last()) + s.last()
    }
}

pub proof fn lemma_seq_sum_update(s: Seq<usize>, i: int, x: usize)
    requires
        0 <= i < s.len(),
    ensures
        seq_sum(s.update(i, x)) == seq_sum(s) - s[i] + x,
    decreases s.len(),
{
    let s2 = s.update(i, x);
    if i == s.len() - 1 {
        assert(s2.drop_last() =~= s.drop_last());
    } else {
        assert(s2.drop_last() =~= s.drop_last().update(i, x));
        lemma_seq_sum_update(s.drop_last(), i, x);
    }
}

pub proof fn lemma_seq_sum_elem(s: Seq<usize>, i: int)
    requires
        0 <= i < s.len(),
    ensures
        s[i] <= seq_sum(s),
    decreases s.len(),
{
    if i < s.len() - 1 {
        assert(s.drop_last()[i] == s[i]);
        lemma_seq_sum_elem(s.drop_last(), i);
    }
    lemma_seq_sum_nonneg(s.drop_last());
}

pub proof fn lemma_seq_sum_nonneg(s: Seq<usize>)
    ensures
        seq_sum(s) >= 0,
    decreases s.len(),
{
    if s.len() > 0 {
        lemma_seq_sum_nonneg(s.drop_last());
    }
}

pub proof fn lemma_seq_sum_zeros(n: nat)
    ensures
        seq_sum(Seq::new(n, |i: int| 0usize)) == 0,
    decreases n,
{
    if n > 0 {
        assert(Seq::new(n, |i: int| 0usize).drop_last() =~= Seq::new((n - 1) as nat, |i: int| 0usize));
        lemma_seq_sum_zeros((n - 1) as nat);
    }
}

/// Number of edges of `edges` (overflow excluded by the caller).
fn total_edges(edges: &Vec<Vec<(usize, i64)>>) -> (m: usize)
    requires
        rows_len_p(rows_of(edges@)) <= usize::MAX,
    ensures
        m == rows_len_p(rows_of(edges@)),
{
    let ghost e = rows_of(edges@);
    let mut m: usize = 0;
    let mut u: usize = 0;
    while u < edges.len()
        invariant
            u <= edges@.len(),
            e == rows_of(edges@),
            rows_len_p(e) <= usize::MAX,
            m == rows_len_p(e.take(u as int)),
        decreases edges@.len() - u,
    {
        proof {
            crate::paths::lemma_rows_len_p_prefix(e, u as int);
        }
        m = m + edges[u].len();
        u += 1;
    }
    proof {
        assert(e.take(e.len() as int) =~= e);
    }
    m
}

/// In-degree of every vertex (targets below `n`), and their sum.
fn in_degrees(edges: &Vec<Vec<(usize, i64)>>, n: usize) -> (indeg: Vec<usize>)
    requires
        targets_below(rows_of(edges@), n as int),
        rows_len_p(rows_of(edges@)) <= usize::MAX,
    ensures
        indeg@.len() == n,
        forall|v: int| 0 <= v < n ==> #[trigger] indeg@[v] == in_degree(rows_of(edges@), v),
        seq_sum(indeg@) == rows_len_p(rows_of(edges@)),
{
    let ghost e = rows_of(edges@);
    let mut indeg: Vec<usize> = crate::standard_algorithms::filled(n, 0usize);
    proof {
        lemma_seq_sum_zeros(n as nat);
    }
    let mut u: usize = 0;
    while u < edges.len()
        invariant
            u <= edges@.len(),
            e == rows_of(edges@),
            targets_below(e, n as int),
            rows_len_p(e) <= usize::MAX,
            indeg@.len() == n,
            forall|v: int| 0 <= v < n ==> #[trigger] indeg@[v] == in_upto(e, u as int, v),
            seq_sum(indeg@) == rows_len_p(e.take(u as int)),
        decreases edges@.len() - u,
    {
        let mut j: usize = 0;
        while j < edges[u].len()
            invariant
                u < edges@.len(),
                e == rows_of(edges@),
                targets_below(e, n as int),
                rows_len_p(e) <= usize::MAX,
                j <= e[u as int].len(),
                indeg@.len() == n,
                forall|v: int| 0 <= v < n ==> #[trigger] indeg@[v] == in_upto(e, u as int, v) + count_to(
                    e[u as int].take(j as int),
                    v,
                ),
                seq_sum(indeg@) == rows_len_p(e.take(u as int)) + j,
            decreases e[u as int].len() - j,
        {
            let (v, _) = edges[u][j];
            proof {
                assert(e[u as int][j as int].0 == v);
                assert(v < n);
                lemma_count_to_prefix(e[u as int], j as int, v as int);
                lemma_in_upto_mono(e, u as int + 1, e.len() as int, v as int);
                crate::paths::lemma_rows_len_p_prefix(e, u as int);
                assert(e.take(e.len() as int) =~= e);
                crate::paths::lemma_rows_len_p_prefix(e, e.len() - 1);
                lemma_rows_len_prefix_mono(e, u as int + 1);
                assert(count_to(e[u as int].take(j as int), v as int) < count_to(e[u as int], v as int)) by {
                    lemma_count_to_take(e[u as int], j as int, v as int);
                    lemma_count_to_prefix(e[u as int], j as int + 1, v as int);
                }
                assert(in_upto(e, u as int + 1, v as int) == in_upto(e, u as int, v as int) + count_to(e[u as int], v as int));
                lemma_seq_sum_elem(indeg@, v as int);
            }
            let c = indeg[v] + 1;
            proof {
                lemma_seq_sum_update(indeg@, v as int, c);
                assert forall|x: int| 0 <= x < n implies count_to(e[u as int].take(j + 1), x) == count_to(
                    e[u as int].take(j as int),
                    x,
                ) + if x == v { 1nat } else { 0nat } by {
                    lemma_count_to_take(e[u as int], j as int, x);
                }
            }
            indeg.set(v, c);
            j += 1;
        }
        proof {
            assert(e[u as int].take(e[u as int].len() as int) =~= e[u as int]);
            crate::paths::lemma_rows_len_p_prefix(e, u as int);
        }
        u += 1;
    }
    proof {
        assert(e.take(e.len() as int) =~= e);
    }
    indeg
}

/// Prefix sums of row lengths stay below the total.
pub proof fn lemma_rows_len_prefix_mono(e: Seq<Seq<(usize, i64)>>, u: int)
    requires
        0 <= u <= e.len(),
    ensures
        rows_len_p(e.take(u)) <= rows_len_p(e),
    decreases e.len() - u,
{
    if u == e.len() {
        assert(e.take(u) =~= e);
    } else {
        crate::paths::lemma_rows_len_p_prefix(e, u);
        lemma_rows_len_prefix_mono(e, u + 1);
    }
}
/// Whether `edges` describes a simple graph on `0..n` (see `simple`).
fn is_simple(edges: &Vec<Vec<(usize, i64)>>, n: usize) -> (ok: bool)
    ensures
        ok == simple(n as int, rows_of(edges@)),
{
    let ghost e = rows_of(edges@);
    if edges.len() != n {
        return false;
    }
    let mut u: usize = 0;
    while u < n
        invariant
            u <= n,
            e == rows_of(edges@),
            e.len() == n,
            forall|x: int, j: int| 0 <= x < u && 0 <= j < e[x].len() ==> #[trigger] e[x][j].0 < n,
        decreases n - u,
    {
        let mut j: usize = 0;
        while j < edges[u].len()
            invariant
                u < n,
                e == rows_of(edges@),
                e.len() == n,
                j <= e[u as int].len(),
                forall|x: int, jj: int| 0 <= x < u && 0 <= jj < e[x].len() ==> #[trigger] e[x][jj].0 < n,
                forall|jj: int| 0 <= jj < j ==> #[trigger] e[u as int][jj].0 < n,
            decreases e[u as int].len() - j,
        {
            if edges[u][j].0 >= n {
                return false;
            }
            j += 1;
        }
        u += 1;
    }
    let mut seen: Vec<bool> = crate::standard_algorithms::filled(n, false);
    let mut u: usize = 0;
    while u < n
        invariant
            u <= n,
            e == rows_of(edges@),
            e.len() == n,
            targets_below(e, n as int),
            seen@.len() == n,
            forall|x: int| 0 <= x < n ==> !#[trigger] seen@[x],
            forall|x: int, j: int| 0 <= x < u && 0 <= j < e[x].len() ==> #[trigger] e[x][j].0 != x,
            forall|x: int, j: int, k: int|
                0 <= x < u && 0 <= j < k < e[x].len() ==> #[trigger] e[x][j].0 != #[trigger] e[x][k].0,
        decreases n - u,
    {
        let len = edges[u].len();
        let mut j: usize = 0;
        while j < len
            invariant
                u < n,
                e == rows_of(edges@),
                e.len() == n,
                targets_below(e, n as int),
                len == e[u as int].len(),
                j <= len,
                seen@.len() == n,
                forall|x: int| 0 <= x < n ==> (#[trigger] seen@[x] <==> exists|k: int| 0 <= k < j && e[u as int][k].0 == x),
                forall|a: int, b: int| 0 <= a < b < j ==> #[trigger] e[u as int][a].0 != #[trigger] e[u as int][b].0,
            decreases len - j,
        {
            let v = edges[u][j].0;
            proof {
                assert(e[u as int][j as int].0 == v);
            }
            if seen[v] {
                proof {
                    let k = choose|k: int| 0 <= k < j && e[u as int][k].0 == v;
                    assert(e[u as int][k].0 == e[u as int][j as int].0);
                }
                return false;
            }
            seen.set(v, true);
            j += 1;
        }
        if seen[u] {
            proof {
                let k = choose|k: int| 0 <= k < len && e[u as int][k].0 == u;
                assert(e[u as int][k].0 == u);
            }
            return false;
        }
        let mut j: usize = 0;
        while j < len
            invariant
                u < n,
                e == rows_of(edges@),
                e.len() == n,
                targets_below(e, n as int),
                len == e[u as int].len(),
                j <= len,
                seen@.len() == n,
                forall|a: int, b: int| 0 <= a < b < len ==> #[trigger] e[u as int][a].0 != #[trigger] e[u as int][b].0,
                forall|x: int| 0 <= x < n ==> (#[trigger] seen@[x] <==> exists|k: int| j <= k < len && e[u as int][k].0 == x),
            decreases len - j,
        {
            let v = edges[u][j].0;
            proof {
                assert(e[u as int][j as int].0 == v);
            }
            seen.set(v, false);
            proof {
                assert forall|x: int| 0 <= x < n implies (#[trigger] seen@[x] <==> exists|k: int| j + 1 <= k < len && e[u as int][k].0 == x) by {
                    if seen@[x] {
                        let k = choose|k: int| j <= k < len && e[u as int][k].0 == x;
                        assert(k != j);
                    }
                }
            }
            j += 1;
        }
        proof {
            assert forall|j: int| 0 <= j < e[u as int].len() implies #[trigger] e[u as int][j].0 != u by {
                if e[u as int][j].0 == u {
                    assert(e[u as int][j].0 == u);
                }
            }
        }
        u += 1;
    }
    true
}

/// `ceil(a / b)`.
fn ceil_div_exec(a: usize, b: usize) -> (q: usize)
    requires
        b > 0,
    ensures
        q == ceil_div(a as int, b as int),
{
    let q = a / b;
    proof {
        if b == 1 {
            vstd::arithmetic::div_mod::lemma_fundamental_div_mod_converse_mod(a as int, 1, a as int, 0);
        } else {
            vstd::arithmetic::div_mod::lemma_div_is_ordered_by_denominator(a as int, 2, b as int);
        }
    }
    if a % b == 0 {
        q
    } else {
        q + 1
    }
}

/// A graph without self-loops or parallel edges.
#[derive(Debug, Clone)]
pub struct SimpleGraph {
    pub n: usize,
    pub edges: Vec<Vec<(usize, i64)>>,
}

impl SimpleGraph {
    pub open spec fn edges_view(&self) -> Seq<Seq<(usize, i64)>> {
        rows_of(self.edges@)
    }

    pub open spec fn well_formed(&self) -> bool {
        simple(self.n as int, self.edges_view())
    }

    /// Whether the graph is simple: one row per vertex, targets inside `0..n`, no
    /// self-loop and no parallel edges.
    pub fn is_well_formed(&self) -> (ok: bool)
        ensures
            ok == self.well_formed(),
    {
        is_simple(&self.edges, self.n)
    }

    /// The consistency check of a simple graph; it is only called on one.
    pub fn sanity_check(&self)
        requires
            self.well_formed(),
    {
        let ok = self.is_well_formed();
        assert(ok);
    }
}

/// A simple graph whose in- and out-degrees are all at most `ceil(4m / n) + 1`.
#[derive(Debug, Clone)]
pub struct ProperGraph {
    pub n: usize,
    pub edges: Vec<Vec<(usize, i64)>>,
}

impl ProperGraph {
    pub open spec fn edges_view(&self) -> Seq<Seq<(usize, i64)>> {
        rows_of(self.edges@)
    }

    pub open spec fn well_formed(&self) -> bool {
        &&& simple(self.n as int, self.edges_view())
        &&& degrees_bounded(self.n as int, self.edges_view())
    }

    /// The consistency check of a proper graph; it is only called on one.
    pub fn sanity_check(&self)
        requires
            self.well_formed(),
            4 * rows_len_p(self.edges_view()) <= usize::MAX,
    {
        let ok = self.is_well_formed();
        assert(ok);
    }

    /// Whether the graph is proper: simple, and every degree within
    /// `ceil(4m / n) + 1`.
    pub fn is_well_formed(&self) -> (ok: bool)
        requires
            4 * rows_len_p(self.edges_view()) <= usize::MAX,
        ensures
            ok == self.well_formed(),
    {
        let n = self.n;
        let ghost e = self.edges_view();
        if !is_simple(&self.edges, n) {
            return false;
        }
        let m = total_edges(&self.edges);
        if m == 0 {
            return true;
        }
        proof {
            if n == 0 {
                assert(e.len() == 0);
                assert(rows_len_p(e) == 0);
            }
        }
        let bound = ceil_div_exec(4 * m, n) + 1;
        let indeg = in_degrees(&self.edges, n);
        let mut u: usize = 0;
        while u < n
            invariant
                u <= n,
                n == self.n,
                e == self.edges_view(),
                e.len() == n,
                m == rows_len_p(e),
                m > 0,
                n > 0,
                bound == degree_bound(n as int, m as int),
                indeg@.len() == n,
                forall|v: int| 0 <= v < n ==> #[trigger] indeg@[v] == in_degree(e, v),
                forall|x: int| 0 <= x < u ==> #[trigger] indeg@[x] <= bound && e[x].len() <= bound,
            decreases n - u,
        {
            proof {
                assert(e[u as int].len() == self.edges@[u as int]@.len());
                assert(indeg@[u as int] == in_degree(e, u as int));
            }
            if indeg[u] > bound || self.edges[u].len() > bound {
                return false;
            }
            u += 1;
        }
        proof {
            assert forall|x: int|
                #![trigger e[x]]
                #![trigger in_degree(e, x)]
                0 <= x < n implies in_degree(e, x) <= degree_bound(n as int, m as int) && e[x].len()
                    <= degree_bound(n as int, m as int) by {
                assert(indeg@[x] <= bound);
            }
            assert(rows_len_p(e) == m);
        }
        true
    }

    /// The largest in- or out-degree and the allowance `ceil(4m / n) + 1`;
    /// `(0, 1)` for a graph without edges.
    pub fn max_degree_vs_degree_bound(&self) -> (res: (usize, usize))
        requires
            self.edges@.len() == self.n,
            targets_below(self.edges_view(), self.n as int),
            4 * rows_len_p(self.edges_view()) <= usize::MAX,
        ensures
            rows_len_p(self.edges_view()) == 0 ==> res == (0usize, 1usize),
            rows_len_p(self.edges_view()) > 0 ==> {
                &&& res.1 == degree_bound(self.n as int, rows_len_p(self.edges_view()) as int)
                &&& forall|u: int|
                    #![trigger self.edges_view()[u]]
                    #![trigger in_degree(self.edges_view(), u)]
                    0 <= u < self.n ==> in_degree(self.edges_view(), u) <= res.0 && self.edges_view()[u].len()
                        <= res.0
                &&& exists|u: int|
                    0 <= u < self.n && (in_degree(self.edges_view(), u) == res.0 || (
                    #[trigger] self.edges_view()[u]).len() == res.0)
            },
    {
        let n = self.n;
        let ghost e = self.edges_view();
        let m = total_edges(&self.edges);
        if m == 0 {
            return (0, 1);
        }
        proof {
            if n == 0 {
                assert(e.len() == 0);
                assert(rows_len_p(e) == 0);
            }
        }
        let bound = ceil_div_exec(4 * m, n) + 1;
        let indeg = in_degrees(&self.edges, n);
        let mut best: usize = 0;
        let ghost mut arg: int = 0;
        let mut u: usize = 0;
        while u < n
            invariant
                u <= n,
                n == self.n,
                n > 0,
                e == self.edges_view(),
                e.len() == n,
                indeg@.len() == n,
                forall|v: int| 0 <= v < n ==> #[trigger] indeg@[v] == in_degree(e, v),
                forall|x: int| 0 <= x < u ==> #[trigger] indeg@[x] <= best && e[x].len() <= best,
                u == 0 ==> best == 0,
                u > 0 ==> 0 <= arg < u && (in_degree(e, arg) == best || e[arg].len() == best),
            decreases n - u,
        {
            let a = indeg[u];
            let b = self.edges[u].len();
            proof {
                assert(e[u as int].len() == b);
                assert(a == in_degree(e, u as int));
            }
            let c = if a > b { a } else { b };
            if u == 0 || c > best {
                best = c;
                proof {
                    arg = u as int;
                }
            }
            proof {
                assert forall|x: int| 0 <= x <= u implies #[trigger] indeg@[x] <= best && e[x].len() <= best by {
                    if x < u {
                        assert(indeg@[x] <= best);
                    }
                }
            }
            u += 1;
        }
        proof {
            assert(0 <= arg < n && (in_degree(e, arg) == best || e[arg].len() == best));
            assert forall|x: int|
                #![trigger e[x]]
                #![trigger in_degree(e, x)]
                0 <= x < n implies in_degree(e, x) <= best && e[x].len() <= best by {
                assert(indeg@[x] <= best);
            }
        }
        (best, bound)
    }
}

/// `a` comes no later than `b` in the lexicographic order of `(target, weight)`.
pub open spec fn lex_le(a: (usize, i64), b: (usize, i64)) -> bool {
    a.0 < b.0 || (a.0 == b.0 && a.1 <= b.1)
}

/// Sorts the edges ascending by `(target, weight)`, as `slice::sort` does for
/// tuples (lexicographic order).  The contract states what std documents: the
/// result is a permutation of the input, in ascending order.
#[verifier::external_body]
fn sort_edges(v: &mut Vec<(usize, i64)>)
    ensures
        final(v)@.to_multiset() == old(v)@.to_multiset(),
        forall|i: int, j: int| 0 <= i < j < final(v)@.len() ==> lex_le(final(v)@[i], final(v)@[j]),
{
    v.sort();
}

/// `(v, w)` is an edge of `row`, and no edge of `row` to `v` is lighter.
pub open spec fn min_edge_to(row: Seq<(usize, i64)>, v: usize, w: i64) -> bool {
    &&& exists|j: int| 0 <= j < row.len() && #[trigger] row[j] == (v, w)
    &&& forall|j: int| 0 <= j < row.len() && (#[trigger] row[j]).0 == v ==> w <= row[j].1
}

/// `row` keeps, in increasing order of target, the lightest edge of `orig` to every
/// target other than `u`.
pub open spec fn simplified_row(orig: Seq<(usize, i64)>, u: int, row: Seq<(usize, i64)>) -> bool {
    &&& forall|a: int, b: int| 0 <= a < b < row.len() ==> #[trigger] row[a].0 < #[trigger] row[b].0
    &&& forall|k: int| 0 <= k < row.len() ==> (#[trigger] row[k]).0 as int != u && min_edge_to(orig, row[k].0, row[k].1)
    &&& forall|j: int|
        0 <= j < orig.len() && (#[trigger] orig[j]).0 as int != u ==> exists|k: int|
            0 <= k < row.len() && #[trigger] row[k].0 == orig[j].0
}

/// Some vertex has a negative edge to itself.
pub open spec fn has_negative_self_loop(edges: Seq<Seq<(usize, i64)>>) -> bool {
    exists|u: int, j: int|
        0 <= u < edges.len() && 0 <= j < edges[u].len() && (#[trigger] edges[u][j]).0 as int == u
            && edges[u][j].1 < 0
}

fn copy_row(row: &Vec<(usize, i64)>) -> (res: Vec<(usize, i64)>)
    ensures
        res@ == row@,
{
    let mut res: Vec<(usize, i64)> = Vec::new();
    let mut i: usize = 0;
    while i < row.len()
        invariant
            i <= row@.len(),
            res@ == row@.take(i as int),
        decreases row@.len() - i,
    {
        res.push(row[i]);
        i += 1;
        assert(res@ =~= row@.take(i as int));
    }
    assert(row@.take(row@.len() as int) =~= row@);
    res
}

/// Simplifies one adjacency row of `u`: `Err` on a negative self-loop, otherwise
/// the lightest edge to each other target, in increasing order of target.
fn simplify_row(orig: &Vec<(usize, i64)>, u: usize) -> (res: Result<Vec<(usize, i64)>, ()>)
    ensures
        res is Err <==> exists|j: int| 0 <= j < orig@.len() && (#[trigger] orig@[j]).0 == u && orig@[j].1 < 0,
        res matches Ok(row) ==> simplified_row(orig@, u as int, row@) && row@.len() <= orig@.len(),
{
    let mut s = copy_row(orig);
    sort_edges(&mut s);
    let ghost o = orig@;
    let ghost sv = s@;
    proof {
        assert forall|x: (usize, i64)| sv.contains(x) <==> o.contains(x) by {
            vstd::seq_lib::to_multiset_contains(sv, x);
            vstd::seq_lib::to_multiset_contains(o, x);
        }
        assert(sv.len() == o.len()) by {
            vstd::seq_lib::to_multiset_len(sv);
            vstd::seq_lib::to_multiset_len(o);
        }
    }
    let mut out: Vec<(usize, i64)> = Vec::new();
    let ghost mut idx: Seq<int> = Seq::empty();
    let mut i: usize = 0;
    while i < s.len()
        invariant
            sv == s@,
            o == orig@,
            forall|x: (usize, i64)| sv.contains(x) <==> o.contains(x),
            i <= sv.len(),
            forall|a: int, b: int| 0 <= a < b < sv.len() ==> lex_le(sv[a], sv[b]),
            out@.len() <= i,
            idx.len() == out@.len(),
            forall|a: int, b: int| 0 <= a < b < out@.len() ==> #[trigger] out@[a].0 < #[trigger] out@[b].0,
            forall|k: int|
                0 <= k < out@.len() ==> 0 <= #[trigger] idx[k] < i && out@[k] == sv[idx[k]] && sv[idx[k]].0 != u && (
                idx[k] == 0 || sv[idx[k] - 1].0 != sv[idx[k]].0),
            forall|t: int|
                0 <= t < i && (#[trigger] sv[t]).0 != u ==> exists|k: int| 0 <= k < out@.len() && out@[k].0 == sv[t].0,
            forall|t: int| 0 <= t < i ==> !((#[trigger] sv[t]).0 == u && sv[t].1 < 0),
            i > 0 && out@.len() > 0 ==> out@[out@.len() - 1].0 <= sv[i - 1].0,
        decreases sv.len() - i,
    {
        let (v, w) = s[i];
        if v == u {
            if w < 0 {
                proof {
                    assert(sv.contains(sv[i as int]));
                    assert(o.contains(sv[i as int]));
                    let j = choose|j: int| 0 <= j < o.len() && o[j] == sv[i as int];
                    assert(o[j].0 == u && o[j].1 < 0);
                }
                return Err(());
            }
            proof {
                if i > 0 && out@.len() > 0 {
                    assert(lex_le(sv[i - 1], sv[i as int]));
                }
            }
            i += 1;
            continue;
        }
        if i > 0 && v == s[i - 1].0 {
            proof {
                assert(sv[i - 1].0 != u);
                let k = choose|k: int| 0 <= k < out@.len() && out@[k].0 == sv[i - 1].0;
                assert(out@[k].0 == sv[i as int].0);
            }
            i += 1;
            continue;
        }
        proof {
            if out@.len() > 0 {
                assert(i > 0);
                assert(lex_le(sv[i - 1], sv[i as int]));
                assert(sv[i - 1].0 < v);
            }
        }
        let ghost before = out@;
        out.push((v, w));
        proof {
            idx = idx.push(i as int);
            assert forall|a: int, b: int| 0 <= a < b < out@.len() implies #[trigger] out@[a].0 < #[trigger] out@[b].0 by {
                if b == out@.len() - 1 && a < b {
                    assert(out@[a] == before[a]);
                    if a < before.len() - 1 {
                        assert(before[a].0 < before[before.len() - 1].0);
                    }
                }
            }
            assert forall|t: int|
                0 <= t < i + 1 && (#[trigger] sv[t]).0 != u implies exists|k: int| 0 <= k < out@.len() && out@[k].0 == sv[t].0 by {
                if t < i {
                    let k = choose|k: int| 0 <= k < before.len() && before[k].0 == sv[t].0;
                    assert(out@[k] == before[k]);
                } else {
                    assert(out@[out@.len() - 1].0 == sv[t].0);
                }
            }
        }
        i += 1;
    }
    proof {
        let r = out@;
        assert forall|k: int| 0 <= k < r.len() implies (#[trigger] r[k]).0 as int != u && min_edge_to(o, r[k].0, r[k].1) by {
            let f = idx[k];
            assert(sv.contains(sv[f]));
            assert(o.contains(sv[f]));
            let j0 = choose|j: int| 0 <= j < o.len() && o[j] == sv[f];
            assert(o[j0] == (r[k].0, r[k].1));
            assert forall|j: int| 0 <= j < o.len() && (#[trigger] o[j]).0 == r[k].0 implies r[k].1 <= o[j].1 by {
                assert(o.contains(o[j]));
                assert(sv.contains(o[j]));
                let t = choose|t: int| 0 <= t < sv.len() && sv[t] == o[j];
                if t < f {
                    assert(lex_le(sv[t], sv[f - 1]));
                    assert(lex_le(sv[f - 1], sv[f]));
                } else if t > f {
                    assert(lex_le(sv[f], sv[t]));
                }
            }
        }
        assert forall|j: int| 0 <= j < o.len() && (#[trigger] o[j]).0 as int != u implies exists|k: int|
            0 <= k < r.len() && #[trigger] r[k].0 == o[j].0 by {
            assert(o.contains(o[j]));
            assert(sv.contains(o[j]));
            let t = choose|t: int| 0 <= t < sv.len() && sv[t] == o[j];
            assert(sv[t].0 != u);
            let k = choose|k: int| 0 <= k < out@.len() && out@[k].0 == sv[t].0;
            assert(r[k].0 == o[j].0);
        }
        assert forall|j: int| 0 <= j < o.len() && (#[trigger] o[j]).0 == u implies !(o[j].1 < 0) by {
            assert(o.contains(o[j]));
            assert(sv.contains(o[j]));
            let t = choose|t: int| 0 <= t < sv.len() && sv[t] == o[j];
            assert(!(sv[t].0 == u && sv[t].1 < 0));
        }
    }
    Ok(out)
}

impl SimpleGraph {
    /// Removes self-loops and parallel edges: `Err(())` when some vertex has a
    /// negative self-loop (a negative cycle); otherwise each row keeps, sorted by
    /// target, the lightest edge to every other target.
    pub fn try_from(graph: Graph) -> (res: Result<SimpleGraph, ()>)
        requires
            graph.well_formed(),
        ensures
            res is Err <==> has_negative_self_loop(graph.edges_view()),
            res matches Ok(sg) ==> {
                &&& sg.n == graph.n
                &&& sg.well_formed()
                &&& simplified_of(graph.edges_view(), sg.edges_view())
                &&& forall|u: int|
                    0 <= u < graph.n ==> simplified_row(graph.edges_view()[u], u, #[trigger] sg.edges_view()[u])
                &&& forall|u: int| 0 <= u < graph.n ==> (#[trigger] sg.edges_view()[u]).len() <= graph.edges_view()[u].len()
                &&& forall|a: int, b: int, w: int|
                    #![trigger walk_between(plain(graph.n as int, sg.edges_view()), a, b, w)]
                    #![trigger walk_between(plain(graph.n as int, graph.edges_view()), a, b, w)]
                    (walk_between(plain(graph.n as int, sg.edges_view()), a, b, w) ==> walk_between(
                        plain(graph.n as int, graph.edges_view()),
                        a,
                        b,
                        w,
                    )) && (walk_between(plain(graph.n as int, graph.edges_view()), a, b, w) ==> walk_no_heavier(
                        plain(graph.n as int, sg.edges_view()),
                        a,
                        b,
                        w,
                    ))
            },
    {
        let n = graph.n;
        let ghost ge = graph.edges_view();
        let mut edges: Vec<Vec<(usize, i64)>> = Vec::new();
        let mut u: usize = 0;
        while u < n
            invariant
                u <= n,
                n == graph.n,
                ge == graph.edges_view(),
                ge.len() == n,
                targets_below(ge, n as int),
                edges@.len() == u,
                forall|x: int| 0 <= x < u ==> simplified_row(ge[x], x, #[trigger] edges@[x]@),
                forall|x: int| 0 <= x < u ==> (#[trigger] edges@[x])@.len() <= ge[x].len(),
                forall|x: int, j: int| 0 <= x < u && 0 <= j < ge[x].len() ==> !((#[trigger] ge[x][j]).0 as int == x && ge[x][j].1 < 0),
            decreases n - u,
        {
            let simplified = if u < graph.edges.len() {
                proof {
                    assert(ge[u as int] == graph.edges@[u as int]@);
                }
                simplify_row(&graph.edges[u], u)
            } else {
                proof {
                    assert(ge[u as int] =~= Seq::<(usize, i64)>::empty());
                }
                let empty: Vec<(usize, i64)> = Vec::new();
                Ok(empty)
            };
            match simplified {
                Err(()) => {
                    proof {
                        let j = choose|j: int| 0 <= j < ge[u as int].len() && (#[trigger] ge[u as int][j]).0 == u && ge[u as int][j].1 < 0;
                        assert(ge[u as int][j].0 as int == u);
                    }
                    return Err(());
                },
                Ok(row) => {
                    edges.push(row);
                },
            }
            proof {
                assert forall|j: int| 0 <= j < ge[u as int].len() implies !((#[trigger] ge[u as int][j]).0 as int == u && ge[u as int][j].1 < 0) by {
                    assert(u < graph.edges@.len());
                    assert(ge[u as int][j] == graph.edges@[u as int]@[j]);
                }
            }
            u += 1;
        }
        let sg = SimpleGraph { n, edges };
        proof {
            let e = sg.edges_view();
            assert forall|x: int| 0 <= x < n implies e[x] == edges@[x]@ by {}
            assert forall|x: int, j: int| 0 <= x < n && 0 <= j < e[x].len() implies #[trigger] e[x][j].0 < n by {
                let orig = ge[x];
                assert(min_edge_to(orig, e[x][j].0, e[x][j].1));
                let jj = choose|jj: int| 0 <= jj < orig.len() && #[trigger] orig[jj] == (e[x][j].0, e[x][j].1);
                assert(ge[x][jj].0 < n);
            }
            assert forall|x: int, j: int| 0 <= x < n && 0 <= j < e[x].len() implies #[trigger] e[x][j].0 != x by {
                assert(e[x][j] == edges@[x]@[j]);
            }
            assert forall|x: int, j: int, k: int| 0 <= x < n && 0 <= j < k < e[x].len() implies #[trigger] e[x][j].0
                != #[trigger] e[x][k].0 by {
                assert(e[x][j] == edges@[x]@[j]);
                assert(e[x][k] == edges@[x]@[k]);
            }
            assert(!has_negative_self_loop(ge));
            let se = sg.edges_view();
            assert forall|a: int, b: int, w: int|
                #![trigger walk_between(plain(n as int, se), a, b, w)]
                #![trigger walk_between(plain(n as int, ge), a, b, w)]
                (walk_between(plain(n as int, se), a, b, w) ==> walk_between(plain(n as int, ge), a, b, w)) && (
                walk_between(plain(n as int, ge), a, b, w) ==> walk_no_heavier(plain(n as int, se), a, b, w)) by {
                let g1 = plain(n as int, ge);
                let g2 = plain(n as int, se);
                if walk_between(g2, a, b, w) {
                    let q = choose|q: Seq<Step>| #[trigger] g2.is_walk(a, q) && g2.walk_end(a, q) == b && g2.walk_weight(a, q) == w;
                    let p = lemma_simplified_walk_back(ge, se, a, q);
                    assert(g1.is_walk(a, p));
                }
                if walk_between(g1, a, b, w) {
                    let p = choose|p: Seq<Step>| #[trigger] g1.is_walk(a, p) && g1.walk_end(a, p) == b && g1.walk_weight(a, p) == w;
                    let q = lemma_simplified_walk_forward(ge, se, a, p);
                    let w2 = g2.walk_weight(a, q);
                    assert(g2.is_walk(a, q));
                    assert(walk_between(g2, a, b, w2));
                }
            }
        }
        Ok(sg)
    }
}

/// Out-degree of every vertex, and their sum.
fn row_lengths(edges: &Vec<Vec<(usize, i64)>>) -> (deg: Vec<usize>)
    requires
        rows_len_p(rows_of(edges@)) <= usize::MAX,
    ensures
        deg@.len() == edges@.len(),
        forall|u: int| 0 <= u < deg@.len() ==> #[trigger] deg@[u] == edges@[u]@.len(),
        seq_sum(deg@) == rows_len_p(rows_of(edges@)),
{
    let ghost e = rows_of(edges@);
    let mut deg: Vec<usize> = Vec::new();
    let mut u: usize = 0;
    while u < edges.len()
        invariant
            u <= edges@.len(),
            e == rows_of(edges@),
            rows_len_p(e) <= usize::MAX,
            deg@.len() == u,
            forall|x: int| 0 <= x < u ==> #[trigger] deg@[x] == edges@[x]@.len(),
            seq_sum(deg@) == rows_len_p(e.take(u as int)),
        decreases edges@.len() - u,
    {
        proof {
            crate::paths::lemma_rows_len_p_prefix(e, u as int);
        }
        let ghost before = deg@;
        deg.push(edges[u].len());
        proof {
            assert(deg@.drop_last() =~= before);
        }
        u += 1;
    }
    proof {
        assert(e.take(e.len() as int) =~= e);
    }
    deg
}

/// Facts on `ceil(a / b)`.
pub proof fn lemma_ceil_div(a: int, b: int)
    requires
        a >= 0,
        b > 0,
    ensures
        ceil_div(a, b) * b >= a,
        (ceil_div(a, b) - 1) * b < a || a == 0,
        ceil_div(a, b) >= 0,
        a > 0 ==> ceil_div(a, b) >= 1,
{
    vstd::arithmetic::div_mod::lemma_fundamental_div_mod(a, b);
    let q = a / b;
    let r = a % b;
    assert(a == b * q + r);
    assert(0 <= r < b);
    assert(q >= 0) by (nonlinear_arith)
        requires
            a == b * q + r,
            0 <= r < b,
            a >= 0,
    ;
    if r == 0 {
        assert(ceil_div(a, b) * b == a) by (nonlinear_arith)
            requires
                ceil_div(a, b) == q,
                a == b * q,
        ;
        assert((q - 1) * b == a - b) by (nonlinear_arith)
            requires
                a == b * q,
        ;
        if a > 0 {
            assert(q >= 1) by (nonlinear_arith)
                requires
                    a == b * q,
                    a > 0,
                    b > 0,
            ;
        }
    } else {
        assert(ceil_div(a, b) * b == a - r + b) by (nonlinear_arith)
            requires
                ceil_div(a, b) == q + 1,
                a == b * q + r,
        ;
        assert((ceil_div(a, b) - 1) * b == a - r) by (nonlinear_arith)
            requires
                ceil_div(a, b) == q + 1,
                a == b * q + r,
        ;
    }
}

/// `a / b <= c / e` gives `ceil(a / b) <= ceil(c / e)`.
pub proof fn lemma_ceil_div_mono(a: int, b: int, c: int, e: int)
    requires
        a >= 0,
        c >= 0,
        b > 0,
        e > 0,
        a * e <= c * b,
    ensures
        ceil_div(a, b) <= ceil_div(c, e),
{
    lemma_ceil_div(a, b);
    lemma_ceil_div(c, e);
    let p = ceil_div(a, b);
    let q = ceil_div(c, e);
    if a > 0 && q < p {
        assert(q * b <= (p - 1) * b) by (nonlinear_arith)
            requires
                q <= p - 1,
                b > 0,
        ;
        assert(q * b * e < a * e) by (nonlinear_arith)
            requires
                q * b < a,
                e > 0,
        ;
        assert(c * b <= q * e * b) by (nonlinear_arith)
            requires
                q * e >= c,
                b > 0,
        ;
        assert(q * b * e == q * e * b) by (nonlinear_arith);
    }
}

/// `k` blocks of `c` each fit in `m`, and `c >= 2m / n`: so `2k <= n`.
pub proof fn lemma_few_aux(k: int, c: int, m: int, n: int)
    requires
        k >= 0,
        c >= 1,
        m > 0,
        n > 0,
        c * n >= 2 * m,
        k * c <= m,
    ensures
        2 * k <= n,
{
    assert(k * c * n <= m * n) by (nonlinear_arith)
        requires
            k * c <= m,
            n > 0,
    ;
    assert(k * (2 * m) <= k * (c * n)) by (nonlinear_arith)
        requires
            c * n >= 2 * m,
            k >= 0,
    ;
    assert(k * c * n == k * (c * n)) by (nonlinear_arith);
    assert(2 * k * m <= n * m) by (nonlinear_arith)
        requires
            k * (2 * m) <= m * n,
    ;
    assert(2 * k <= n) by (nonlinear_arith)
        requires
            2 * k * m <= n * m,
            m > 0,
    ;
}

impl ProperGraph {
    /// Bounds every degree: each vertex `u` gets a chain of auxiliary vertices
    /// `u -> a1 -> a2 -> ...` (and `... -> b2 -> b1 -> u` for its in-edges) joined by
    /// zero-weight edges, and the edges of `u` are spread over the chain.  With
    /// `m > 0` edges on `n` vertices, every chain member carries at most
    /// `ceil(2m / n) + 1` edges of each direction; at most `n` vertices, and as many
    /// chain edges, are added.  A graph without edges is returned as it is.
    /// Each out-chain is filled greedily from its last member back to `u`, in row
    /// order, and each image enters the member of the in-chain that the edges before
    /// it leave open (`greedy_split`); `lemma_greedy_split_unique` shows that this
    /// fixes the result.
    pub fn from(graph: SimpleGraph) -> (res: ProperGraph)
        requires
            graph.well_formed(),
            4 * (rows_len_p(graph.edges_view()) + graph.n) <= usize::MAX,
        ensures
            res.well_formed(),
            graph.n <= res.n <= 2 * graph.n,
            rows_len_p(res.edges_view()) == rows_len_p(graph.edges_view()) + (res.n - graph.n),
            rows_len_p(graph.edges_view()) == 0 ==> res.n == graph.n && res.edges_view() == graph.edges_view(),
            greedy_split(graph.n as int, graph.edges_view(), res.n as int, res.edges_view()),
            rows_len_p(graph.edges_view()) > 0 ==> forall|x: int|
                0 <= x < res.n ==> (#[trigger] res.edges_view()[x]).len() <= ceil_div(
                    2 * rows_len_p(graph.edges_view()) as int,
                    graph.n as int,
                ) + 1 && in_degree(res.edges_view(), x) <= ceil_div(2 * rows_len_p(graph.edges_view()) as int, graph.n as int)
                    + 1,
            exists|lay: Layout|
                #[trigger] split_of(lay, graph.edges_view(), res.edges_view()) && lay.valid() && lay.n == graph.n
                    && lay.total == res.n && (rows_len_p(graph.edges_view()) > 0 ==> split_sizes(
                    lay,
                    graph.edges_view(),
                    ceil_div(2 * rows_len_p(graph.edges_view()) as int, graph.n as int) + 1,
                ) && greedy_of(
                    lay,
                    graph.edges_view(),
                    ceil_div(2 * rows_len_p(graph.edges_view()) as int, graph.n as int) + 1,
                    res.edges_view(),
                )),
            forall|a: int, b: int, w: int|
                #![trigger walk_between(plain(graph.n as int, graph.edges_view()), a, b, w)]
                #![trigger walk_between(plain(res.n as int, res.edges_view()), a, b, w)]
                0 <= a < graph.n && 0 <= b < graph.n ==> (walk_between(plain(graph.n as int, graph.edges_view()), a, b, w)
                    <==> walk_between(plain(res.n as int, res.edges_view()), a, b, w)),
    {
        let n = graph.n;
        let ghost ge = graph.edges_view();
        let m = total_edges(&graph.edges);
        if m == 0 {
            let res = ProperGraph { n, edges: graph.edges };
            proof {
                lemma_unsplit(n as int, ge);
                let lay = choose|lay: Layout| #[trigger] split_of(lay, ge, ge) && lay.valid() && lay.n == n && lay.total == n;
                assert(res.edges_view() == ge);
                assert(split_of(lay, ge, res.edges_view()));
            }
            return res;
        }
        proof {
            if n == 0 {
                assert(ge.len() == 0);
                assert(rows_len_p(ge) == 0);
            }
        }
        let (total, edges) = split_degrees(&graph, m);
        let res = ProperGraph { n: total, edges };
        proof {
            let e = res.edges_view();
            assert(e == rows_of(edges@));
            let lay = choose|lay: Layout| #[trigger] split_of(lay, ge, e) && lay.valid() && lay.n == n && lay.total == total;
            assert forall|a: int, b: int, w: int| 0 <= a < n && 0 <= b < n implies (walk_between(plain(n as int, ge), a, b, w)
                <==> walk_between(plain(total as int, e), a, b, w)) by {
                lemma_split_keeps_walks(lay, ge, e, a, b, w);
            }
        }
        res
    }

    /// A proper graph from any graph: `Err(())` when a vertex has a negative
    /// self-loop, otherwise `from` applied to the simplified graph (the same graph,
    /// by `lemma_proper_graph_unique`).
    pub fn try_from(graph: Graph) -> (res: Result<ProperGraph, ()>)
        requires
            graph.well_formed(),
            4 * (rows_len_p(graph.edges_view()) + graph.n) <= usize::MAX,
        ensures
            res is Err <==> has_negative_self_loop(graph.edges_view()),
            res matches Ok(pg) ==> {
                &&& pg.well_formed()
                &&& graph.n <= pg.n <= 2 * graph.n
                &&& pg.n - graph.n + rows_len_p(graph.edges_view()) >= rows_len_p(pg.edges_view())
                &&& exists|se: Seq<Seq<(usize, i64)>>, lay: Layout|
                    #![trigger split_of(lay, se, pg.edges_view())]
                    {
                        &&& se.len() == graph.n
                        &&& forall|u: int| 0 <= u < graph.n ==> simplified_row(graph.edges_view()[u], u, #[trigger] se[u])
                        &&& simplified_of(graph.edges_view(), se)
                        &&& greedy_split(graph.n as int, se, pg.n as int, pg.edges_view())
                        &&& lay.valid()
                        &&& lay.n == graph.n
                        &&& lay.total == pg.n
                        &&& split_of(lay, se, pg.edges_view())
                        &&& rows_len_p(se) > 0 ==> split_sizes(lay, se, ceil_div(2 * rows_len_p(se) as int, graph.n as int) + 1)
                            && greedy_of(lay, se, ceil_div(2 * rows_len_p(se) as int, graph.n as int) + 1, pg.edges_view())
                        &&& rows_len_p(pg.edges_view()) == rows_len_p(se) + (pg.n - graph.n)
                        &&& rows_len_p(se) == 0 ==> pg.n == graph.n && pg.edges_view() == se
                        &&& rows_len_p(se) > 0 ==> forall|x: int|
                            0 <= x < pg.n ==> (#[trigger] pg.edges_view()[x]).len() <= ceil_div(
                                2 * rows_len_p(se) as int,
                                graph.n as int,
                            ) + 1 && in_degree(pg.edges_view(), x) <= ceil_div(2 * rows_len_p(se) as int, graph.n as int)
                                + 1
                        &&& forall|a: int, b: int, w: int|
                            #![trigger walk_between(plain(graph.n as int, se), a, b, w)]
                            #![trigger walk_between(plain(pg.n as int, pg.edges_view()), a, b, w)]
                            0 <= a < graph.n && 0 <= b < graph.n ==> (walk_between(plain(graph.n as int, se), a, b, w)
                                <==> walk_between(plain(pg.n as int, pg.edges_view()), a, b, w))
                    }
                &&& forall|a: int, b: int, w: int|
                    #![trigger walk_between(plain(pg.n as int, pg.edges_view()), a, b, w)]
                    #![trigger walk_between(plain(graph.n as int, graph.edges_view()), a, b, w)]
                    0 <= a < graph.n && 0 <= b < graph.n ==> (walk_between(plain(pg.n as int, pg.edges_view()), a, b, w)
                        ==> walk_between(plain(graph.n as int, graph.edges_view()), a, b, w)) && (walk_between(
                        plain(graph.n as int, graph.edges_view()),
                        a,
                        b,
                        w,
                    ) ==> walk_no_heavier(plain(pg.n as int, pg.edges_view()), a, b, w))
            },
    {
        let ghost ge = graph.edges_view();
        let n = graph.n;
        match SimpleGraph::try_from(graph) {
            Err(()) => Err(()),
            Ok(sg) => {
                proof {
                    lemma_rows_len_le(sg.edges_view(), ge);
                }
                let pg = ProperGraph::from(sg);
                proof {
                    let se = sg.edges_view();
                    let lay = choose|lay: Layout|
                        #[trigger] split_of(lay, se, pg.edges_view()) && lay.valid() && lay.n == sg.n && lay.total == pg.n
                            && (rows_len_p(se) > 0 ==> split_sizes(lay, se, ceil_div(2 * rows_len_p(se) as int, sg.n as int) + 1)
                            && greedy_of(lay, se, ceil_div(2 * rows_len_p(se) as int, sg.n as int) + 1, pg.edges_view()));
                    assert(se.len() == n);
                    assert(split_of(lay, se, pg.edges_view()));
                    let pe = pg.edges_view();
                    assert forall|a: int, b: int, w: int|
                        #![trigger walk_between(plain(pg.n as int, pe), a, b, w)]
                        #![trigger walk_between(plain(n as int, ge), a, b, w)]
                        0 <= a < n && 0 <= b < n implies (walk_between(plain(pg.n as int, pe), a, b, w) ==> walk_between(
                        plain(n as int, ge),
                        a,
                        b,
                        w,
                    )) && (walk_between(plain(n as int, ge), a, b, w) ==> walk_no_heavier(plain(pg.n as int, pe), a, b, w)) by {
                        assert(walk_between(plain(n as int, se), a, b, w) <==> walk_between(plain(pg.n as int, pe), a, b, w));
                        if walk_between(plain(n as int, ge), a, b, w) {
                            assert(walk_no_heavier(plain(n as int, se), a, b, w));
                            let w2 = choose|w2: int| w2 <= w && #[trigger] walk_between(plain(n as int, se), a, b, w2);
                            assert(walk_between(plain(n as int, se), a, b, w2) <==> walk_between(plain(pg.n as int, pe), a, b, w2));
                            assert(walk_between(plain(pg.n as int, pe), a, b, w2));
                        }
                    }
                }
                Ok(pg)
            },
        }
    }
}

/// Rows no longer than those of `f` hold no more edges in all.
pub proof fn lemma_rows_len_le(e: Seq<Seq<(usize, i64)>>, f: Seq<Seq<(usize, i64)>>)
    requires
        e.len() == f.len(),
        forall|u: int| 0 <= u < e.len() ==> (#[trigger] e[u]).len() <= f[u].len(),
    ensures
        rows_len_p(e) <= rows_len_p(f),
    decreases e.len(),
{
    if e.len() > 0 {
        assert(e.last().len() <= f.last().len());
        assert forall|u: int| 0 <= u < e.drop_last().len() implies (#[trigger] e.drop_last()[u]).len() <= f.drop_last()[u].len() by {
            assert(e.drop_last()[u] == e[u]);
            assert(f.drop_last()[u] == f[u]);
        }
        lemma_rows_len_le(e.drop_last(), f.drop_last());
    }
}

/// A split graph whose degrees stay within `ceil(2m / n) + 1` meets the allowance
/// `ceil(4m' / n') + 1` of its own size (`n' <= 2n` vertices, `m' >= m` edges).
pub proof fn lemma_bounded_by_split(e: Seq<Seq<(usize, i64)>>, total: int, n: int, m: int, d: int)
    requires
        e.len() == total,
        0 < n <= total <= 2 * n,
        m > 0,
        d == ceil_div(2 * m, n) + 1,
        rows_len_p(e) == (total - n) + m,
        forall|x: int| 0 <= x < total ==> (#[trigger] e[x]).len() <= d && in_degree(e, x) <= d,
    ensures
        degrees_bounded(total, e),
{
    let m2 = rows_len_p(e) as int;
    assert(2 * m * total <= 4 * m2 * n) by (nonlinear_arith)
        requires
            total <= 2 * n,
            m <= m2,
            m >= 0,
            n > 0,
    ;
    lemma_ceil_div_mono(2 * m, n, 4 * m2, total);
    assert forall|u: int|
        #![trigger e[u]]
        #![trigger in_degree(e, u)]
        0 <= u < total implies in_degree(e, u) <= degree_bound(total, m2) && e[u].len() <= degree_bound(total, m2) by {
        assert(e[u].len() <= d && in_degree(e, u) <= d);
    }
}

/// The out-chains of a degree split with allowance `d >= ceil(2m / n) + 1`.
#[verifier::spinoff_prover]
fn plan_out(graph: &SimpleGraph, m: usize, d: usize) -> (res: (Vec<Vec<usize>>, usize, Ghost<Seq<int>>, Ghost<Seq<int>>))
    requires
        graph.well_formed(),
        m == rows_len_p(graph.edges_view()),
        m > 0,
        graph.n > 0,
        4 * (m + graph.n) <= usize::MAX,
        d >= 2,
        (d - 1) * graph.n >= 2 * m,
    ensures
        alloc_ok(res.2@, res.3@, graph.n as int, graph.n as int, res.1 as int),
        lists_follow(res.0@, res.2@, graph.n as int),
        forall|u: int|
            0 <= u < graph.n ==> chain_fits((#[trigger] graph.edges_view()[u]).len() as int, d as int, block_len(res.2@, u)),
        2 * (res.1 - graph.n) <= graph.n,
{
    let n = graph.n;
    let ghost ge = graph.edges_view();
    let outdeg = row_lengths(&graph.edges);
    proof {
        assert(outdeg@.len() == n);
    }
    let (outaux, mid, Ghost(ob), Ghost(oo)) = alloc_aux(&outdeg, d, n);
    proof {
        assert forall|u: int| 0 <= u < n implies chain_fits((#[trigger] ge[u]).len() as int, d as int, block_len(ob, u)) by {
            assert(chain_fits(outdeg@[u] as int, d as int, block_len(ob, u)));
        }
        lemma_few_aux(mid - n, d - 1, m as int, n as int);
    }
    (outaux, mid, Ghost(ob), Ghost(oo))
}

/// The in-chains of a degree split with allowance `d >= ceil(2m / n) + 1`,
/// numbered from `mid` on.
#[verifier::spinoff_prover]
fn plan_in(graph: &SimpleGraph, m: usize, d: usize, mid: usize) -> (res: (Vec<Vec<usize>>, usize, Ghost<Seq<int>>, Ghost<Seq<int>>))
    requires
        graph.well_formed(),
        m == rows_len_p(graph.edges_view()),
        m > 0,
        graph.n > 0,
        4 * (m + graph.n) <= usize::MAX,
        d >= 2,
        (d - 1) * graph.n >= 2 * m,
        graph.n <= mid,
        2 * (mid - graph.n) <= graph.n,
    ensures
        alloc_ok(res.2@, res.3@, graph.n as int, mid as int, res.1 as int),
        lists_follow(res.0@, res.2@, graph.n as int),
        forall|v: int|
            0 <= v < graph.n ==> chain_fits(#[trigger] in_degree(graph.edges_view(), v) as int, d as int, block_len(res.2@, v)),
        2 * (res.1 - mid) <= graph.n,
{
    let n = graph.n;
    let ghost ge = graph.edges_view();
    let indeg = in_degrees(&graph.edges, n);
    let (inaux, total, Ghost(ib), Ghost(io)) = alloc_aux(&indeg, d, mid);
    proof {
        assert forall|v: int| 0 <= v < n implies chain_fits(#[trigger] in_degree(ge, v) as int, d as int, block_len(ib, v)) by {
            assert(chain_fits(indeg@[v] as int, d as int, block_len(ib, v)));
        }
        lemma_few_aux(total - mid, d - 1, m as int, n as int);
    }
    (inaux, total, Ghost(ib), Ghost(io))
}

/// The degree split of a simple graph with `m > 0` edges on `n` vertices: its
/// vertex count and rows, every degree within `ceil(2m / n) + 1`.
#[verifier::spinoff_prover]
fn split_degrees(graph: &SimpleGraph, m: usize) -> (res: (usize, Vec<Vec<(usize, i64)>>))
    requires
        graph.well_formed(),
        m == rows_len_p(graph.edges_view()),
        m > 0,
        graph.n > 0,
        4 * (m + graph.n) <= usize::MAX,
    ensures
        graph.n <= res.0 <= 2 * graph.n,
        simple(res.0 as int, rows_of(res.1@)),
        degrees_bounded(res.0 as int, rows_of(res.1@)),
        rows_len_p(rows_of(res.1@)) == (res.0 - graph.n) + m,
        forall|x: int|
            0 <= x < res.0 ==> (#[trigger] rows_of(res.1@)[x]).len() <= ceil_div(2 * m, graph.n as int) + 1
                && in_degree(rows_of(res.1@), x) <= ceil_div(2 * m, graph.n as int) + 1,
        exists|lay: Layout|
            #[trigger] split_of(lay, graph.edges_view(), rows_of(res.1@)) && lay.valid() && lay.n == graph.n
                && lay.total == res.0 && split_sizes(lay, graph.edges_view(), ceil_div(2 * m, graph.n as int) + 1)
                && greedy_of(lay, graph.edges_view(), ceil_div(2 * m, graph.n as int) + 1, rows_of(res.1@)),
{
    let n = graph.n;
    let d = ceil_div_exec(2 * m, n) + 1;
    proof {
        lemma_ceil_div(2 * m, n as int);
    }
    let (outaux, mid, Ghost(ob), Ghost(oo)) = plan_out(graph, m, d);
    let (inaux, total, Ghost(ib), Ghost(io)) = plan_in(graph, m, d, mid);
    let ghost lay = Layout { n: n as int, mid: mid as int, total: total as int, ob, oo, ib, io };
    let (edges, outd, ind) = build_chains(&outaux, &inaux, n, total, Ghost(lay));
    let edges = assign_edges(graph, d, &outaux, &inaux, Ghost(lay), edges, outd, ind);
    proof {
        lemma_bounded_by_split(rows_of(edges@), total as int, n as int, m as int, d as int);
        assert(split_of(lay, graph.edges_view(), rows_of(edges@)));
    }
    (total, edges)
}

/// A graph without edges is its own split, along the layout without auxiliaries.
pub proof fn lemma_unsplit(n: int, ge: Seq<Seq<(usize, i64)>>)
    requires
        0 <= n <= usize::MAX,
        ge.len() == n,
        rows_len_p(ge) == 0,
    ensures
        exists|lay: Layout| #[trigger] split_of(lay, ge, ge) && lay.valid() && lay.n == n && lay.total == n,
{
    let base = Seq::new((n + 1) as nat, |i: int| n);
    let own = Seq::new(n as nat, |t: int| 0int);
    let lay = Layout { n, mid: n, total: n, ob: base, oo: own, ib: base, io: own };
    assert forall|u: int| 0 <= u < n implies #[trigger] block_len(base, u) >= 0 by {}
    assert(alloc_ok(base, own, n, n, n));
    assert forall|x: int| 0 <= x < n implies (#[trigger] ge[x]).len() == 0 by {
        lemma_rows_len_zero(ge, x);
    }
    assert(split_of(lay, ge, ge));
}

/// No edges in all: every row is empty.
pub proof fn lemma_rows_len_zero(e: Seq<Seq<(usize, i64)>>, x: int)
    requires
        rows_len_p(e) == 0,
        0 <= x < e.len(),
    ensures
        e[x].len() == 0,
    decreases e.len(),
{
    if x < e.len() - 1 {
        assert(e.drop_last()[x] == e[x]);
        lemma_rows_len_zero(e.drop_last(), x);
    }
}

/// Some walk of `g` from `a` to `b` weighs at most `w`.
pub open spec fn walk_no_heavier(g: GraphModel, a: int, b: int, w: int) -> bool {
    exists|w2: int| w2 <= w && #[trigger] walk_between(g, a, b, w2)
}

/// Every walk of the simplified rows `se` is a walk of the rows `ge`.
pub proof fn lemma_simplified_walk_back(ge: Seq<Seq<(usize, i64)>>, se: Seq<Seq<(usize, i64)>>, a: int, q: Seq<Step>) -> (p: Seq<Step>)
    requires
        ge.len() == se.len(),
        forall|u: int| 0 <= u < ge.len() ==> simplified_row(ge[u], u, #[trigger] se[u]),
        plain(se.len() as int, se).is_walk(a, q),
    ensures
        plain(ge.len() as int, ge).is_walk(a, p),
        plain(ge.len() as int, ge).walk_end(a, p) == plain(se.len() as int, se).walk_end(a, q),
        plain(ge.len() as int, ge).walk_weight(a, p) == plain(se.len() as int, se).walk_weight(a, q),
    decreases q.len(),
{
    let g1 = plain(ge.len() as int, ge);
    let g2 = plain(se.len() as int, se);
    if q.len() == 0 {
        seq![]
    } else {
        let q0 = q.drop_last();
        let st = q.last();
        let p0 = lemma_simplified_walk_back(ge, se, a, q0);
        let c = g2.walk_end(a, q0);
        assert(!st.0);
        let k = st.1;
        assert(simplified_row(ge[c], c, se[c]));
        assert(min_edge_to(ge[c], se[c][k].0, se[c][k].1));
        let j = choose|j: int| 0 <= j < ge[c].len() && #[trigger] ge[c][j] == (se[c][k].0, se[c][k].1);
        g1.lemma_walk_push(a, p0, (false, j));
        p0.push((false, j))
    }
}

/// Every walk of the rows `ge` has a walk of the simplified rows `se` with the
/// same ends and no more weight (self-loops are not negative).
pub proof fn lemma_simplified_walk_forward(ge: Seq<Seq<(usize, i64)>>, se: Seq<Seq<(usize, i64)>>, a: int, p: Seq<Step>) -> (q: Seq<Step>)
    requires
        ge.len() == se.len(),
        forall|u: int| 0 <= u < ge.len() ==> simplified_row(ge[u], u, #[trigger] se[u]),
        !has_negative_self_loop(ge),
        plain(ge.len() as int, ge).is_walk(a, p),
    ensures
        plain(se.len() as int, se).is_walk(a, q),
        plain(se.len() as int, se).walk_end(a, q) == plain(ge.len() as int, ge).walk_end(a, p),
        plain(se.len() as int, se).walk_weight(a, q) <= plain(ge.len() as int, ge).walk_weight(a, p),
    decreases p.len(),
{
    let g1 = plain(ge.len() as int, ge);
    let g2 = plain(se.len() as int, se);
    if p.len() == 0 {
        seq![]
    } else {
        let p0 = p.drop_last();
        let st = p.last();
        let q0 = lemma_simplified_walk_forward(ge, se, a, p0);
        let c = g1.walk_end(a, p0);
        assert(!st.0);
        let j = st.1;
        let v = ge[c][j].0;
        assert(simplified_row(ge[c], c, se[c]));
        if v as int == c {
            assert(!(ge[c][j].0 as int == c && ge[c][j].1 < 0));
            q0
        } else {
            let k = choose|k: int| 0 <= k < se[c].len() && #[trigger] se[c][k].0 == ge[c][j].0;
            assert(min_edge_to(ge[c], se[c][k].0, se[c][k].1));
            assert(se[c][k].1 <= ge[c][j].1);
            g2.lemma_walk_push(a, q0, (false, k));
            q0.push((false, k))
        }
    }
}

/// Every vertex of `ge` gets exactly the auxiliaries it needs with allowance `d`:
/// out-side for its out-degree, in-side for its in-degree.
pub open spec fn split_sizes(lay: Layout, ge: Seq<Seq<(usize, i64)>>, d: int) -> bool {
    &&& forall|u: int| 0 <= u < lay.n ==> chain_fits((#[trigger] ge[u]).len() as int, d, lay.ko(u))
    &&& forall|v: int| 0 <= v < lay.n ==> chain_fits(#[trigger] in_degree(ge, v) as int, d, lay.ki(v))
}

/// The allowance of the degree split of `ge` on `n` vertices: `ceil(2m / n) + 1`.
pub open spec fn split_allowance(n: int, ge: Seq<Seq<(usize, i64)>>) -> int {
    ceil_div(2 * rows_len_p(ge) as int, n) + 1
}

/// `e` on `total` vertices is the degree split of `ge` on `n` vertices: `ge` itself
/// when it has no edge, otherwise the greedy placement of its edges along chains
/// of exactly the needed lengths.
pub open spec fn greedy_split(n: int, ge: Seq<Seq<(usize, i64)>>, total: int, e: Seq<Seq<(usize, i64)>>) -> bool {
    if rows_len_p(ge) == 0 {
        total == n && e == ge
    } else {
        exists|lay: Layout|
            #[trigger] split_of(lay, ge, e) && lay.valid() && lay.n == n && lay.total == total && split_sizes(
                lay,
                ge,
                split_allowance(n, ge),
            ) && greedy_of(lay, ge, split_allowance(n, ge), e)
    }
}

/// Every row of `se` is the simplified row of `ge`.
pub open spec fn simplified_of(ge: Seq<Seq<(usize, i64)>>, se: Seq<Seq<(usize, i64)>>) -> bool {
    &&& se.len() == ge.len()
    &&& forall|u: int| 0 <= u < ge.len() ==> simplified_row(ge[u], u, #[trigger] se[u])
}

/// Two chain lengths that both fit `deg` exactly are the same.
proof fn lemma_chain_fits_unique(deg: int, d: int, k1: int, k2: int)
    requires
        d >= 2,
        k1 >= 0,
        k2 >= 0,
        chain_fits(deg, d, k1),
        chain_fits(deg, d, k2),
    ensures
        k1 == k2,
{
    if k1 < k2 {
        lemma_room_mono(d, k1, k2 - 1);
    }
    if k2 < k1 {
        lemma_room_mono(d, k2, k1 - 1);
    }
}

/// Two block splits that start alike, with blocks of the same sizes, agree.
proof fn lemma_blocks_agree(b1: Seq<int>, b2: Seq<int>, n: int, u: int)
    requires
        b1.len() == n + 1,
        b2.len() == n + 1,
        b1[0] == b2[0],
        0 <= u <= n,
        forall|x: int| 0 <= x < n ==> #[trigger] block_len(b1, x) == block_len(b2, x),
    ensures
        b1[u] == b2[u],
    decreases u,
{
    if u > 0 {
        lemma_blocks_agree(b1, b2, n, u - 1);
        assert(block_len(b1, u - 1) == block_len(b2, u - 1));
    }
}

/// The greedy row of a chain member depends on the layout through its blocks only.
proof fn lemma_placed_row_agree(
    lay1: Layout,
    lay2: Layout,
    ge: Seq<Seq<(usize, i64)>>,
    d: int,
    u: int,
    i: int,
    upto: int,
)
    requires
        lay1.ob == lay2.ob,
        lay1.ib == lay2.ib,
    ensures
        placed_row(lay1, ge, d, u, i, upto) == placed_row(lay2, ge, d, u, i, upto),
{
    let hi = slot_hi(lay1.ko(u), d, ge[u].len() as int, i);
    let lo = slot_lo(lay1.ko(u), d, i);
    let top = if hi < upto {
        hi
    } else {
        upto
    };
    assert(images(lay1, ge, d, u, lo, top) =~= images(lay2, ge, d, u, lo, top));
}

/// The greedy split is unique: two layouts sized for `ge` with allowance `d`, and
/// two graphs that split `ge` the greedy way along them, give the same graph.
pub proof fn lemma_greedy_layout_unique(
    lay1: Layout,
    lay2: Layout,
    ge: Seq<Seq<(usize, i64)>>,
    d: int,
    e1: Seq<Seq<(usize, i64)>>,
    e2: Seq<Seq<(usize, i64)>>,
)
    requires
        d >= 2,
        lay1.valid(),
        lay2.valid(),
        lay1.n == ge.len(),
        lay2.n == ge.len(),
        split_sizes(lay1, ge, d),
        split_sizes(lay2, ge, d),
        split_of(lay1, ge, e1),
        split_of(lay2, ge, e2),
        greedy_of(lay1, ge, d, e1),
        greedy_of(lay2, ge, d, e2),
    ensures
        lay1.total == lay2.total,
        e1 == e2,
{
    let n = lay1.n;
    assert forall|u: int| 0 <= u < n implies #[trigger] block_len(lay1.ob, u) == block_len(lay2.ob, u) by {
        assert(chain_fits(ge[u].len() as int, d, lay1.ko(u)));
        assert(chain_fits(ge[u].len() as int, d, lay2.ko(u)));
        lemma_chain_fits_unique(ge[u].len() as int, d, lay1.ko(u), lay2.ko(u));
    }
    assert forall|u: int| 0 <= u <= n implies lay1.ob[u] == lay2.ob[u] by {
        lemma_blocks_agree(lay1.ob, lay2.ob, n, u);
    }
    assert(lay1.ob =~= lay2.ob);
    assert(lay1.mid == lay2.mid);
    assert forall|v: int| 0 <= v < n implies #[trigger] block_len(lay1.ib, v) == block_len(lay2.ib, v) by {
        assert(chain_fits(in_degree(ge, v) as int, d, lay1.ki(v)));
        assert(chain_fits(in_degree(ge, v) as int, d, lay2.ki(v)));
        lemma_chain_fits_unique(in_degree(ge, v) as int, d, lay1.ki(v), lay2.ki(v));
    }
    assert forall|v: int| 0 <= v <= n implies lay1.ib[v] == lay2.ib[v] by {
        lemma_blocks_agree(lay1.ib, lay2.ib, n, v);
    }
    assert(lay1.ib =~= lay2.ib);
    assert(lay1.total == lay2.total);
    let mid = lay1.mid;
    assert forall|x: int| 0 <= x < lay1.total implies e1[x] == e2[x] by {
        if x < n {
            assert(member(lay1.ob, x, 0) == x);
            assert(e1[member(lay1.ob, x, 0)] == placed_row(lay1, ge, d, x, 0, ge[x].len() as int));
            assert(e2[member(lay2.ob, x, 0)] == placed_row(lay2, ge, d, x, 0, ge[x].len() as int));
            lemma_placed_row_agree(lay1, lay2, ge, d, x, 0, ge[x].len() as int);
        } else if x < mid {
            let u = lay1.oo[x];
            assert(0 <= u < n && lay1.ob[u] <= x < lay1.ob[u + 1]);
            let i = x - lay1.ob[u] + 1;
            assert(member(lay1.ob, u, i) == x);
            assert(member(lay2.ob, u, i) == x);
            assert(e1[member(lay1.ob, u, i)] == placed_row(lay1, ge, d, u, i, ge[u].len() as int));
            assert(e2[member(lay2.ob, u, i)] == placed_row(lay2, ge, d, u, i, ge[u].len() as int));
            lemma_placed_row_agree(lay1, lay2, ge, d, u, i, ge[u].len() as int);
        } else {
            let v = lay1.io[x];
            assert(0 <= v < n && lay1.ib[v] <= x < lay1.ib[v + 1]);
            let i = x - lay1.ib[v] + 1;
            assert(member(lay1.ib, v, i) == x);
            assert(member(lay2.ib, v, i) == x);
            assert(e1[member(lay1.ib, v, i)] == seq![(member(lay1.ib, v, i - 1) as usize, 0i64)]);
            assert(e2[member(lay2.ib, v, i)] == seq![(member(lay2.ib, v, i - 1) as usize, 0i64)]);
        }
    }
    assert(e1 =~= e2);
}

/// The degree split of a graph is unique.
pub proof fn lemma_greedy_split_unique(
    n: int,
    ge: Seq<Seq<(usize, i64)>>,
    t1: int,
    e1: Seq<Seq<(usize, i64)>>,
    t2: int,
    e2: Seq<Seq<(usize, i64)>>,
)
    requires
        ge.len() == n,
        greedy_split(n, ge, t1, e1),
        greedy_split(n, ge, t2, e2),
    ensures
        t1 == t2,
        e1 == e2,
{
    if rows_len_p(ge) > 0 {
        if n == 0 {
            assert(ge.len() == 0);
            assert(rows_len_p(ge) == 0);
        }
        lemma_ceil_div(2 * rows_len_p(ge) as int, n);
        let d = split_allowance(n, ge);
        let lay1 = choose|lay: Layout|
            #[trigger] split_of(lay, ge, e1) && lay.valid() && lay.n == n && lay.total == t1 && split_sizes(lay, ge, d)
                && greedy_of(lay, ge, d, e1);
        let lay2 = choose|lay: Layout|
            #[trigger] split_of(lay, ge, e2) && lay.valid() && lay.n == n && lay.total == t2 && split_sizes(lay, ge, d)
                && greedy_of(lay, ge, d, e2);
        lemma_greedy_layout_unique(lay1, lay2, ge, d, e1, e2);
    }
}

/// Each edge of `row` leaves `u` for another vertex and is a lightest edge of `orig` to its target.
#[verifier::opaque]
spec fn lightest_edges(orig: Seq<(usize, i64)>, u: int, row: Seq<(usize, i64)>) -> bool {
    forall|k: int| 0 <= k < row.len() ==> (#[trigger] row[k]).0 as int != u && min_edge_to(orig, row[k].0, row[k].1)
}

/// Every target of `orig` other than `u` is a target of `row`.
#[verifier::opaque]
spec fn covers_targets(orig: Seq<(usize, i64)>, u: int, row: Seq<(usize, i64)>) -> bool {
    forall|j: int|
        0 <= j < orig.len() && (#[trigger] orig[j]).0 as int != u ==> exists|k: int|
            0 <= k < row.len() && #[trigger] row[k].0 == orig[j].0
}

/// Targets strictly increase along `row`.
spec fn increasing_targets(row: Seq<(usize, i64)>) -> bool {
    forall|a: int, b: int| 0 <= a < b < row.len() ==> #[trigger] row[a].0 < #[trigger] row[b].0
}

/// A target of `r1` is a target of `r2`.
proof fn lemma_target_in(orig: Seq<(usize, i64)>, u: int, r1: Seq<(usize, i64)>, r2: Seq<(usize, i64)>, i: int)
    requires
        lightest_edges(orig, u, r1),
        covers_targets(orig, u, r2),
        0 <= i < r1.len(),
    ensures
        exists|i2: int| 0 <= i2 < r2.len() && #[trigger] r2[i2].0 == r1[i].0,
{
    reveal(lightest_edges);
    reveal(covers_targets);
    assert(min_edge_to(orig, r1[i].0, r1[i].1));
    let j = choose|j: int| 0 <= j < orig.len() && #[trigger] orig[j] == (r1[i].0, r1[i].1);
    assert(orig[j].0 as int != u);
}

/// Two lightest edges to one target weigh the same.
proof fn lemma_weight_agree(orig: Seq<(usize, i64)>, u: int, r1: Seq<(usize, i64)>, r2: Seq<(usize, i64)>, i: int)
    requires
        lightest_edges(orig, u, r1),
        lightest_edges(orig, u, r2),
        0 <= i < r1.len(),
        i < r2.len(),
        r1[i].0 == r2[i].0,
    ensures
        r1[i] == r2[i],
{
    reveal(lightest_edges);
    assert(min_edge_to(orig, r1[i].0, r1[i].1));
    assert(min_edge_to(orig, r2[i].0, r2[i].1));
    let j1 = choose|j: int| 0 <= j < orig.len() && #[trigger] orig[j] == (r1[i].0, r1[i].1);
    let j2 = choose|j: int| 0 <= j < orig.len() && #[trigger] orig[j] == (r2[i].0, r2[i].1);
    assert(orig[j1].0 == r2[i].0);
    assert(orig[j2].0 == r1[i].0);
}

/// Two rows with increasing targets, each target of one found in the other (at
/// `f1(i)`, `f2(i)`), agree in their targets up to position `k`.
proof fn lemma_targets_agree(
    r1: Seq<(usize, i64)>,
    r2: Seq<(usize, i64)>,
    f1: spec_fn(int) -> int,
    f2: spec_fn(int) -> int,
    k: int,
)
    requires
        increasing_targets(r1),
        increasing_targets(r2),
        forall|i: int| 0 <= i < r1.len() ==> 0 <= #[trigger] f1(i) < r2.len() && r2[f1(i)].0 == r1[i].0,
        forall|i: int| 0 <= i < r2.len() ==> 0 <= #[trigger] f2(i) < r1.len() && r1[f2(i)].0 == r2[i].0,
        0 <= k <= r1.len(),
        k <= r2.len(),
    ensures
        forall|i: int| 0 <= i < k ==> #[trigger] r1[i].0 == r2[i].0,
    decreases k,
{
    if k > 0 {
        lemma_targets_agree(r1, r2, f1, f2, k - 1);
        let i = k - 1;
        let i2 = f1(i);
        let i1 = f2(i);
        if i2 < i {
            assert(r1[i2].0 == r2[i2].0);
            assert(r1[i2].0 < r1[i].0);
        } else if i2 > i {
            assert(r2[i].0 < r2[i2].0);
            if i1 < i {
                assert(r1[i1].0 == r2[i1].0);
                assert(r2[i1].0 < r2[i].0);
            } else if i1 > i {
                assert(r1[i].0 < r1[i1].0);
            }
        }
    }
}

/// A row has one simplified form.
pub proof fn lemma_simplified_row_unique(orig: Seq<(usize, i64)>, u: int, r1: Seq<(usize, i64)>, r2: Seq<(usize, i64)>)
    requires
        simplified_row(orig, u, r1),
        simplified_row(orig, u, r2),
    ensures
        r1 == r2,
{
    assert(lightest_edges(orig, u, r1) && lightest_edges(orig, u, r2)) by {
        reveal(lightest_edges);
    }
    assert(covers_targets(orig, u, r1) && covers_targets(orig, u, r2)) by {
        reveal(covers_targets);
    }
    assert(increasing_targets(r1) && increasing_targets(r2));
    lemma_simplified_parts_unique(orig, u, r1, r2);
}

/// Rows made of the lightest edges, covering all targets, in increasing order of
/// target, are equal.
proof fn lemma_simplified_parts_unique(orig: Seq<(usize, i64)>, u: int, r1: Seq<(usize, i64)>, r2: Seq<(usize, i64)>)
    requires
        lightest_edges(orig, u, r1),
        lightest_edges(orig, u, r2),
        covers_targets(orig, u, r1),
        covers_targets(orig, u, r2),
        increasing_targets(r1),
        increasing_targets(r2),
    ensures
        r1 == r2,
{
    let f1 = |i: int| choose|i2: int| 0 <= i2 < r2.len() && #[trigger] r2[i2].0 == r1[i].0;
    let f2 = |i: int| choose|i1: int| 0 <= i1 < r1.len() && #[trigger] r1[i1].0 == r2[i].0;
    assert forall|i: int| 0 <= i < r1.len() implies 0 <= #[trigger] f1(i) < r2.len() && r2[f1(i)].0 == r1[i].0 by {
        lemma_target_in(orig, u, r1, r2, i);
    }
    assert forall|i: int| 0 <= i < r2.len() implies 0 <= #[trigger] f2(i) < r1.len() && r1[f2(i)].0 == r2[i].0 by {
        lemma_target_in(orig, u, r2, r1, i);
    }
    let k = if r1.len() <= r2.len() {
        r1.len() as int
    } else {
        r2.len() as int
    };
    lemma_targets_agree(r1, r2, f1, f2, k);
    if r1.len() < r2.len() {
        let i1 = f2(k);
        assert(r1[i1].0 == r2[i1].0);
        assert(r2[i1].0 < r2[k].0);
    }
    if r2.len() < r1.len() {
        let i2 = f1(k);
        assert(r1[i2].0 == r2[i2].0);
        assert(r1[i2].0 < r1[k].0);
    }
    assert forall|i: int| 0 <= i < r1.len() implies r1[i] == r2[i] by {
        assert(r1[i].0 == r2[i].0);
        lemma_weight_agree(orig, u, r1, r2, i);
    }
    assert(r1 =~= r2);
}

/// A proper graph built from `ge` is one graph, whichever way it was built:
/// `ProperGraph::try_from`, or `SimpleGraph::try_from` followed by
/// `ProperGraph::from`, give the same simplified graph and the same split.
pub proof fn lemma_proper_graph_unique(
    n: int,
    ge: Seq<Seq<(usize, i64)>>,
    se1: Seq<Seq<(usize, i64)>>,
    t1: int,
    e1: Seq<Seq<(usize, i64)>>,
    se2: Seq<Seq<(usize, i64)>>,
    t2: int,
    e2: Seq<Seq<(usize, i64)>>,
)
    requires
        ge.len() == n,
        simplified_of(ge, se1),
        simplified_of(ge, se2),
        greedy_split(n, se1, t1, e1),
        greedy_split(n, se2, t2, e2),
    ensures
        se1 == se2,
        t1 == t2,
        e1 == e2,
{
    assert forall|u: int| 0 <= u < n implies se1[u] == se2[u] by {
        lemma_simplified_row_unique(ge[u], u, se1[u], se2[u]);
    }
    assert(se1 =~= se2);
    lemma_greedy_split_unique(n, se1, t1, e1, t2, e2);
}

} // verus!
