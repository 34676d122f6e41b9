//! Splitting high-degree vertices: each vertex gets a chain of auxiliary
//! vertices joined by zero-weight edges, and its edges are spread over the chain
//! so that every in- and out-degree stays within a bound.
use vstd::prelude::*;
use crate::graph::{
    seq_sum, lemma_seq_sum_nonneg, in_degree, in_upto, count_to, lemma_count_to_take, lemma_count_to_prefix,
    lemma_in_upto_mono, lemma_in_upto_push, lemma_rows_len_push, simple, targets_below, SimpleGraph,
};
use crate::paths::{lemma_rows_len_p_prefix, GraphModel, Step};
use crate::standard_algorithms::filled;
use crate::paths::rows_len_p;

verus! {

/// Room of a chain with `k` auxiliaries: the last member takes `d` edges, the
/// others `d - 1` each on top of their chain edge.
#[verifier::opaque]
pub open spec fn room(d: int, k: int) -> int {
    d + k * (d - 1)
}

/// `k` auxiliaries are exactly what a vertex with `deg` edges on one side needs:
/// the fewest whose room holds them.
pub open spec fn chain_fits(deg: int, d: int, k: int) -> bool {
    &&& deg <= room(d, k)
    &&& (k == 0 || deg > room(d, k - 1))
}

/// Sum of the first `u` counters.
pub open spec fn prefix_sum(s: Seq<usize>, u: int) -> int {
    seq_sum(s.take(u))
}

pub proof fn lemma_prefix_sum_step(s: Seq<usize>, u: int)
    requires
        0 <= u < s.len(),
    ensures
        prefix_sum(s, u + 1) == prefix_sum(s, u) + s[u],
{
    assert(s.take(u + 1).drop_last() =~= s.take(u));
}

pub proof fn lemma_prefix_sum_full(s: Seq<usize>)
    ensures
        prefix_sum(s, s.len() as int) == seq_sum(s),
{
    assert(s.take(s.len() as int) =~= s);
}

/// Member `i` of the chain of `u`: `u` itself, then the auxiliary vertices
/// `base[u], base[u] + 1, ...`.
pub open spec fn member(base: Seq<int>, u: int, i: int) -> int {
    if i == 0 {
        u
    } else {
        base[u] + i - 1
    }
}

/// Size of block `u`.
pub open spec fn block_len(base: Seq<int>, u: int) -> int {
    base[u + 1] - base[u]
}

/// `base` splits `start..next` into consecutive blocks, block `u` holding the
/// auxiliary vertices of vertex `u`, and `own` names the block of every auxiliary
/// vertex.
pub open spec fn alloc_ok(base: Seq<int>, own: Seq<int>, n: int, start: int, next: int) -> bool {
    &&& base.len() == n + 1
    &&& base[0] == start
    &&& base[n] == next
    &&& forall|u: int| 0 <= u < n ==> #[trigger] block_len(base, u) >= 0
    &&& forall|u: int| 0 <= u <= n ==> start <= #[trigger] base[u] <= next
    &&& own.len() == next
    &&& forall|t: int| start <= t < next ==> 0 <= #[trigger] own[t] < n && base[own[t]] <= t < base[own[t] + 1]
    &&& forall|u: int, t: int|
        #![trigger base[u], own[t]]
        0 <= u < n && base[u] <= t < base[u + 1] ==> own[t] == u
}

/// `lists[u]` is the whole chain of `u`.
pub open spec fn lists_follow(lists: Seq<Vec<usize>>, base: Seq<int>, n: int) -> bool {
    &&& lists.len() == n
    &&& forall|u: int| 0 <= u < n ==> (#[trigger] lists[u])@.len() == base[u + 1] - base[u] + 1
    &&& forall|u: int, i: int| 0 <= u < n && 0 <= i < lists[u]@.len() ==> #[trigger] lists[u]@[i] == member(base, u, i)
}

/// Allocates the chains: `u` keeps `deg[u]` edges on its own while that fits in
/// `d`; beyond that each extra auxiliary vertex takes `d - 1` more.  Auxiliary
/// vertices are numbered from `start` on, chain after chain.
pub fn alloc_aux(deg: &Vec<usize>, d: usize, start: usize) -> (res: (Vec<Vec<usize>>, usize, Ghost<Seq<int>>, Ghost<Seq<int>>))
    requires
        d >= 2,
        start >= deg@.len(),
        start + seq_sum(deg@) <= usize::MAX,
    ensures
        ({
            let (lists, next, base, own) = (res.0, res.1, res.2@, res.3@);
            let n = deg@.len() as int;
            &&& alloc_ok(base, own, n, start as int, next as int)
            &&& lists_follow(lists@, base, n)
            &&& forall|u: int| 0 <= u < n ==> chain_fits(#[trigger] deg@[u] as int, d as int, block_len(base, u))
            &&& (next - start) * (d - 1) <= seq_sum(deg@)
        }),
{
    let n = deg.len();
    let mut lists: Vec<Vec<usize>> = Vec::new();
    let mut cur: usize = start;
    let ghost mut base: Seq<int> = seq![start as int];
    let ghost mut own: Seq<int> = Seq::new(start as nat, |t: int| 0int);
    let ghost mut tot: int = 0;
    proof {
        lemma_seq_sum_nonneg(deg@);
        assert(deg@.take(0) =~= Seq::<usize>::empty());
    }
    let mut u: usize = 0;
    while u < n
        invariant
            n == deg@.len(),
            d >= 2,
            start >= n,
            start + seq_sum(deg@) <= usize::MAX,
            u <= n,
            lists@.len() == u,
            base.len() == u + 1,
            base[0] == start,
            base[u as int] == cur,
            start <= cur,
            forall|x: int| 0 <= x < u ==> #[trigger] block_len(base, x) >= 0,
            forall|x: int| 0 <= x < u ==> (#[trigger] lists@[x])@.len() == base[x + 1] - base[x] + 1,
            forall|x: int, i: int|
                0 <= x < u && 0 <= i < lists@[x]@.len() ==> #[trigger] lists@[x]@[i] == member(base, x, i),
            forall|x: int| 0 <= x < u ==> chain_fits(#[trigger] deg@[x] as int, d as int, block_len(base, x)),
            forall|x: int| 0 <= x <= u ==> start <= #[trigger] base[x] <= cur,
            own.len() == cur,
            forall|t: int| start <= t < cur ==> 0 <= #[trigger] own[t] < u && base[own[t]] <= t < base[own[t] + 1],
            forall|x: int, t: int| #![trigger base[x], own[t]] 0 <= x < u && base[x] <= t < base[x + 1] ==> own[t] == x,
            tot == (cur - start) * (d - 1),
            tot <= prefix_sum(deg@, u as int),
        decreases n - u,
    {
        let mut list: Vec<usize> = Vec::new();
        list.push(u);
        let mut left = deg[u];
        let ghost mut cnt: int = 0;
        let ghost cur0 = cur as int;
        let ghost old_own = own;
        proof {
            lemma_prefix_sum_step(deg@, u as int);
            assert(prefix_sum(deg@, u as int + 1) <= seq_sum(deg@)) by {
                lemma_prefix_mono(deg@, u as int + 1);
            }
        }
        while left > d
            invariant
                n == deg@.len(),
                u < n,
                d >= 2,
                start + seq_sum(deg@) <= usize::MAX,
                prefix_sum(deg@, u as int + 1) == prefix_sum(deg@, u as int) + deg@[u as int],
                prefix_sum(deg@, u as int + 1) <= seq_sum(deg@),
                start <= cur0 <= cur,
                cur == cur0 + cnt,
                list@.len() == cnt + 1,
                list@[0] == u,
                forall|i: int| 1 <= i < list@.len() ==> #[trigger] list@[i] == cur0 + i - 1,
                left + cnt * (d - 1) == deg@[u as int],
                cnt >= 1 ==> left > 1,
                tot == (cur - start) * (d - 1),
                tot <= prefix_sum(deg@, u as int) + cnt * (d - 1),
                own.len() == cur,
                forall|t: int| cur0 <= t < cur ==> #[trigger] own[t] == u,
                forall|t: int| start <= t < cur0 ==> #[trigger] own[t] == old_own[t],
            decreases left,
        {
            proof {
                assert((cnt + 1) * (d - 1) == cnt * (d - 1) + (d - 1)) by (nonlinear_arith);
                assert((cur + 1 - start) * (d - 1) == (cur - start) * (d - 1) + (d - 1)) by (nonlinear_arith);
                assert(cur + 1 - start <= (cur + 1 - start) * (d - 1)) by (nonlinear_arith)
                    requires
                        cur + 1 - start >= 0,
                        d - 1 >= 1,
                ;
            }
            list.push(cur);
            cur = cur + 1;
            left = left - (d - 1);
            proof {
                cnt = cnt + 1;
                tot = tot + (d - 1);
                own = own.push(u as int);
            }
        }
        proof {
            assert(cnt * (d - 1) <= deg@[u as int]);
            assert(left <= d);
        }
        lists.push(list);
        proof {
            reveal(room);
            if cnt >= 1 {
                assert((cnt - 1) * (d - 1) + (d - 1) == cnt * (d - 1)) by (nonlinear_arith);
            }
            let ob = base;
            base = base.push(cur as int);
            assert forall|x: int, i: int|
                0 <= x < u + 1 && 0 <= i < lists@[x]@.len() implies #[trigger] lists@[x]@[i] == member(base, x, i) by {
                if x < u {
                    assert(base[x] == ob[x]);
                }
            }
            assert forall|x: int| 0 <= x < u + 1 implies #[trigger] block_len(base, x) >= 0 by {
                if x < u {
                    assert(block_len(ob, x) >= 0);
                }
            }
            assert forall|x: int| 0 <= x <= u + 1 implies start <= #[trigger] base[x] <= cur by {
                if x <= u {
                    assert(base[x] == ob[x]);
                }
            }
            assert forall|t: int| start <= t < cur implies 0 <= #[trigger] own[t] < u + 1 && base[own[t]] <= t < base[own[t] + 1] by {
                if t < cur0 {
                    assert(own[t] == old_own[t]);
                    assert(base[own[t]] == ob[own[t]]);
                    assert(base[own[t] + 1] == ob[own[t] + 1]);
                } else {
                    assert(own[t] == u);
                }
            }
            assert forall|x: int, t: int| #![trigger base[x], own[t]] 0 <= x < u + 1 && base[x] <= t < base[x + 1] implies own[t] == x by {
                if x < u {
                    assert(base[x] == ob[x]);
                    assert(base[x + 1] == ob[x + 1]);
                    assert(ob[x + 1] <= cur0);
                    assert(own[t] == old_own[t]);
                }
            }
        }
        u += 1;
    }
    proof {
        lemma_prefix_sum_full(deg@);
    }
    (lists, cur, Ghost(base), Ghost(own))
}

pub proof fn lemma_prefix_mono(s: Seq<usize>, u: int)
    requires
        0 <= u <= s.len(),
    ensures
        prefix_sum(s, u) <= seq_sum(s),
        prefix_sum(s, u) >= 0,
    decreases s.len() - u,
{
    lemma_seq_sum_nonneg(s.take(u));
    if u == s.len() {
        lemma_prefix_sum_full(s);
    } else {
        lemma_prefix_sum_step(s, u);
        lemma_prefix_mono(s, u + 1);
    }
}


/// Chain edges leaving (or entering) member `i` of a chain of `k + 1` members on
/// the side being filled: one for every member but the last.
pub open spec fn chain_of(i: int, k: int) -> int {
    if i < k {
        1
    } else {
        0
    }
}

/// Room above position `c`: the last member takes `d`, the others `d - 1`.
pub open spec fn cap_above(c: int, k: int, d: int) -> int {
    if c >= k {
        0
    } else {
        d + (k - c - 1) * (d - 1)
    }
}

/// `x` is a member of the chain of `u` (of `k + 1` members).
pub open spec fn is_member(base: Seq<int>, u: int, k: int, x: int) -> bool {
    x == u || (base[u] <= x < base[u] + k)
}

/// The fill state of the chain of `u`: members `0..len` are still open, the ones
/// above are full (`d`), the ones below carry only their chain edge, and `r`
/// edges have been placed so far.
pub open spec fn list_state(deg: Seq<usize>, base: Seq<int>, u: int, k: int, len: int, d: int, r: int) -> bool {
    let c = len - 1;
    &&& 1 <= len <= k + 1
    &&& forall|i: int| 0 <= i < c ==> deg[#[trigger] member(base, u, i)] == chain_of(i, k)
    &&& forall|i: int| c < i <= k ==> deg[#[trigger] member(base, u, i)] == d
    &&& chain_of(c, k) <= deg[member(base, u, c)] <= d
    &&& r == cap_above(c, k, d) + deg[member(base, u, c)] - chain_of(c, k)
}

/// Every member of a chain has degree at most `d`.
pub proof fn lemma_list_state_bounded(deg: Seq<usize>, base: Seq<int>, u: int, k: int, len: int, d: int, r: int, i: int)
    requires
        list_state(deg, base, u, k, len, d, r),
        0 <= i <= k,
        d >= 2,
    ensures
        deg[member(base, u, i)] <= d,
{
    let c = len - 1;
    if i < c {
        assert(deg[member(base, u, i)] == chain_of(i, k));
    } else if i > c {
        assert(deg[member(base, u, i)] == d);
    }
}

/// A full open member is closed: there is another open member below it (the room
/// of the whole chain exceeds the edges placed so far).
pub proof fn lemma_list_pop(deg: Seq<usize>, base: Seq<int>, u: int, k: int, len: int, d: int, r: int)
    requires
        list_state(deg, base, u, k, len, d, r),
        r < room(d, k),
        deg[member(base, u, len - 1)] == d,
        d >= 2,
        k >= 0,
    ensures
        len >= 2,
        list_state(deg, base, u, k, len - 1, d, r),
        deg[member(base, u, len - 2)] < d,
{
    reveal(room);
    assert(room(d, k) == d + k * (d - 1));
    let c = len - 1;
    if c == 0 {
        if k >= 1 {
            assert((k - 1) * (d - 1) + (d - 1) == k * (d - 1)) by (nonlinear_arith);
        }
        assert(false);
    }
    assert(deg[member(base, u, c - 1)] == chain_of(c - 1, k));
    if c < k {
        assert((k - c - 1) * (d - 1) + (d - 1) == (k - c) * (d - 1)) by (nonlinear_arith);
        assert(cap_above(c - 1, k, d) == d + (k - c) * (d - 1));
        assert(cap_above(c, k, d) == d + (k - c - 1) * (d - 1));
    } else {
        assert(c == k);
        assert((k - (c - 1) - 1) * (d - 1) == 0) by (nonlinear_arith)
            requires
                c == k,
        ;
        assert(cap_above(c - 1, k, d) == d);
    }
    assert forall|i: int| c - 1 < i <= k implies deg[#[trigger] member(base, u, i)] == d by {
        if i == c {
        }
    }
}

/// Placing an edge on the open member `len - 1` (not yet full).
pub proof fn lemma_list_push(deg: Seq<usize>, base: Seq<int>, u: int, k: int, len: int, d: int, r: int)
    requires
        list_state(deg, base, u, k, len, d, r),
        deg[member(base, u, len - 1)] < d,
        d <= usize::MAX,
        0 <= u < base[u],
        base[u] + k <= deg.len(),
    ensures
        list_state(
            deg.update(member(base, u, len - 1), (deg[member(base, u, len - 1)] + 1) as usize),
            base,
            u,
            k,
            len,
            d,
            r + 1,
        ),
{
    let x = member(base, u, len - 1);
    let deg2 = deg.update(x, (deg[x] + 1) as usize);
    assert forall|i: int| 0 <= i < len - 1 implies deg2[#[trigger] member(base, u, i)] == chain_of(i, k) by {
        assert(member(base, u, i) != x);
    }
    assert forall|i: int| len - 1 < i <= k implies deg2[#[trigger] member(base, u, i)] == d by {
        assert(member(base, u, i) != x);
    }
}

/// Changing the degree of a vertex outside the chain leaves its state alone.
pub proof fn lemma_list_other(deg: Seq<usize>, base: Seq<int>, u: int, k: int, len: int, d: int, r: int, x: int, val: usize)
    requires
        list_state(deg, base, u, k, len, d, r),
        !is_member(base, u, k, x),
        0 <= x < deg.len(),
        0 <= u < base[u],
        base[u] + k <= deg.len(),
    ensures
        list_state(deg.update(x, val), base, u, k, len, d, r),
{
    let deg2 = deg.update(x, val);
    assert forall|i: int| 0 <= i < len - 1 implies deg2[#[trigger] member(base, u, i)] == chain_of(i, k) by {
        assert(member(base, u, i) != x);
    }
    assert forall|i: int| len - 1 < i <= k implies deg2[#[trigger] member(base, u, i)] == d by {
        assert(member(base, u, i) != x);
    }
    assert(member(base, u, len - 1) != x);
}

/// Where the auxiliary vertices of a degree split go: `0..n` are the input
/// vertices, `n..mid` the out-side auxiliaries (blocks `ob`, owners `oo`) and
/// `mid..total` the in-side ones (blocks `ib`, owners `io`).
pub struct Layout {
    pub n: int,
    pub mid: int,
    pub total: int,
    pub ob: Seq<int>,
    pub oo: Seq<int>,
    pub ib: Seq<int>,
    pub io: Seq<int>,
}

impl Layout {
    pub open spec fn valid(self) -> bool {
        &&& 0 <= self.n <= self.mid <= self.total <= usize::MAX
        &&& alloc_ok(self.ob, self.oo, self.n, self.n, self.mid)
        &&& alloc_ok(self.ib, self.io, self.n, self.mid, self.total)
    }

    /// Number of out-side auxiliaries of `u`.
    pub open spec fn ko(self, u: int) -> int {
        block_len(self.ob, u)
    }

    /// Number of in-side auxiliaries of `v`.
    pub open spec fn ki(self, v: int) -> int {
        block_len(self.ib, v)
    }

    /// The input vertex whose out-chain holds `x` (for `x < mid`).
    pub open spec fn out_owner(self, x: int) -> int {
        if x < self.n {
            x
        } else {
            self.oo[x]
        }
    }

    /// The input vertex whose in-chain holds `x` (for `x < n` or `mid <= x`).
    pub open spec fn in_owner(self, x: int) -> int {
        if x < self.n {
            x
        } else {
            self.io[x]
        }
    }
}

/// Member `i` of the chain of `u` lies in the block of `u`, and is owned by `u`.
pub proof fn lemma_member_range(base: Seq<int>, own: Seq<int>, n: int, start: int, next: int, u: int, i: int)
    requires
        alloc_ok(base, own, n, start, next),
        n <= start,
        0 <= u < n,
        0 <= i <= base[u + 1] - base[u],
    ensures
        i == 0 ==> member(base, u, i) == u,
        i > 0 ==> base[u] <= member(base, u, i) < base[u + 1] && start <= member(base, u, i) < next
            && own[member(base, u, i)] == u,
{
    if i > 0 {
        let t = member(base, u, i);
        assert(start <= base[u]);
        assert(base[u + 1] <= next);
        assert(base[u] <= t < base[u + 1]);
        assert(own[t] == u);
    }
}

/// Distinct chain positions are distinct vertices.
pub proof fn lemma_member_inj(
    base: Seq<int>,
    own: Seq<int>,
    n: int,
    start: int,
    next: int,
    u1: int,
    i1: int,
    u2: int,
    i2: int,
)
    requires
        alloc_ok(base, own, n, start, next),
        n <= start,
        0 <= u1 < n,
        0 <= u2 < n,
        0 <= i1 <= base[u1 + 1] - base[u1],
        0 <= i2 <= base[u2 + 1] - base[u2],
        member(base, u1, i1) == member(base, u2, i2),
    ensures
        u1 == u2,
        i1 == i2,
{
    lemma_member_range(base, own, n, start, next, u1, i1);
    lemma_member_range(base, own, n, start, next, u2, i2);
}

/// Every auxiliary vertex `t` is a member of the chain of its owner.
pub proof fn lemma_aux_member(base: Seq<int>, own: Seq<int>, n: int, start: int, next: int, t: int)
    requires
        alloc_ok(base, own, n, start, next),
        start <= t < next,
    ensures
        0 <= own[t] < n,
        1 <= t - base[own[t]] + 1 <= base[own[t] + 1] - base[own[t]],
        member(base, own[t], t - base[own[t]] + 1) == t,
{
}

/// The rows of an adjacency structure, as sequences.
pub open spec fn rows_of(edges: Seq<Vec<(usize, i64)>>) -> Seq<Seq<(usize, i64)>> {
    edges.map_values(|r: Vec<(usize, i64)>| r@)
}

/// `outd` and `ind` hold the out- and in-degrees of `e`.
pub open spec fn counted(e: Seq<Seq<(usize, i64)>>, outd: Seq<usize>, ind: Seq<usize>) -> bool {
    &&& outd.len() == e.len()
    &&& ind.len() == e.len()
    &&& forall|x: int| 0 <= x < e.len() ==> #[trigger] outd[x] == e[x].len()
    &&& forall|x: int| 0 <= x < e.len() ==> #[trigger] ind[x] == in_degree(e, x)
}

/// Appends the edge `a -> t` of weight `w` and counts it in both degree tables.
fn add_counted(edges: &mut Vec<Vec<(usize, i64)>>, outd: &mut Vec<usize>, ind: &mut Vec<usize>, a: usize, t: usize, w: i64)
    requires
        counted(rows_of(old(edges)@), old(outd)@, old(ind)@),
        a < old(edges)@.len(),
        t < old(edges)@.len(),
        old(outd)@[a as int] < usize::MAX,
        old(ind)@[t as int] < usize::MAX,
    ensures
        rows_of(final(edges)@) == rows_of(old(edges)@).update(a as int, rows_of(old(edges)@)[a as int].push((t, w))),
        final(outd)@ == old(outd)@.update(a as int, (old(outd)@[a as int] + 1) as usize),
        final(ind)@ == old(ind)@.update(t as int, (old(ind)@[t as int] + 1) as usize),
        counted(rows_of(final(edges)@), final(outd)@, final(ind)@),
        rows_len_p(rows_of(final(edges)@)) == rows_len_p(rows_of(old(edges)@)) + 1,
{
    let ghost e0 = rows_of(edges@);
    edges[a].push((t, w));
    let oa = outd[a];
    outd.set(a, oa + 1);
    let it = ind[t];
    ind.set(t, it + 1);
    proof {
        let e1 = rows_of(edges@);
        assert(e1 =~= e0.update(a as int, e0[a as int].push((t, w))));
        lemma_rows_len_push(e0, a as int, t, w);
        assert forall|x: int| 0 <= x < e1.len() implies #[trigger] ind@[x] == in_degree(e1, x) by {
            lemma_in_upto_push(e0, a as int, t, w, e0.len() as int, x);
        }
    }
}

/// Chain `u` of `base` carries its zero-weight chain edges from member `i` to `i + 1`.
pub open spec fn out_chain_row(base: Seq<int>, u: int, i: int) -> Seq<(usize, i64)> {
    if i < base[u + 1] - base[u] {
        seq![(member(base, u, i + 1) as usize, 0i64)]
    } else {
        seq![]
    }
}

/// The graph of chain edges only: out-chains run from each vertex through its
/// out-side auxiliaries, in-chains run from the last in-side auxiliary back to
/// the vertex; every chain edge weighs 0.
pub open spec fn chains_ok(lay: Layout, e: Seq<Seq<(usize, i64)>>, ind: Seq<usize>) -> bool {
    &&& e.len() == lay.total
    &&& forall|u: int, i: int|
        0 <= u < lay.n && 0 <= i <= lay.ko(u) ==> e[#[trigger] member(lay.ob, u, i)] == out_chain_row(lay.ob, u, i)
    &&& forall|v: int, i: int|
        0 <= v < lay.n && 1 <= i <= lay.ki(v) ==> #[trigger] e[member(lay.ib, v, i)] == seq![(member(lay.ib, v, i - 1) as usize, 0i64)]
    &&& forall|v: int, i: int|
        0 <= v < lay.n && 0 <= i <= lay.ki(v) ==> ind[#[trigger] member(lay.ib, v, i)] == chain_of(i, lay.ki(v))
    &&& forall|x: int| lay.n <= x < lay.mid ==> #[trigger] ind[x] == 1
    &&& rows_len_p(e) == lay.total - lay.n
}

/// Edgeless rows contribute no in-degree.
pub proof fn lemma_empty_rows(e: Seq<Seq<(usize, i64)>>, k: int, v: int)
    requires
        0 <= k <= e.len(),
        forall|x: int| 0 <= x < e.len() ==> #[trigger] e[x].len() == 0,
    ensures
        in_upto(e, k, v) == 0,
    decreases k,
{
    if k > 0 {
        lemma_empty_rows(e, k - 1, v);
        assert(e[k - 1].len() == 0);
    }
}

/// Edgeless rows hold no edges.
pub proof fn lemma_empty_rows_len(e: Seq<Seq<(usize, i64)>>)
    requires
        forall|x: int| 0 <= x < e.len() ==> #[trigger] e[x].len() == 0,
    ensures
        rows_len_p(e) == 0,
    decreases e.len(),
{
    if e.len() > 0 {
        assert(e.last().len() == 0);
        lemma_empty_rows_len(e.drop_last());
    }
}

/// `total` empty rows, with both degree tables at zero.
fn empty_rows(total: usize) -> (res: (Vec<Vec<(usize, i64)>>, Vec<usize>, Vec<usize>))
    ensures
        rows_of(res.0@).len() == total,
        forall|x: int| 0 <= x < total ==> (#[trigger] rows_of(res.0@)[x]).len() == 0,
        counted(rows_of(res.0@), res.1@, res.2@),
        forall|x: int| 0 <= x < total ==> #[trigger] res.2@[x] == 0,
        rows_len_p(rows_of(res.0@)) == 0,
{
    let mut edges: Vec<Vec<(usize, i64)>> = Vec::new();
    let mut x: usize = 0;
    while x < total
        invariant
            x <= total,
            edges@.len() == x,
            forall|y: int| 0 <= y < x ==> (#[trigger] edges@[y])@.len() == 0,
        decreases total - x,
    {
        edges.push(Vec::new());
        x += 1;
    }
    let outd = filled(total, 0usize);
    let ind = filled(total, 0usize);
    proof {
        let e = rows_of(edges@);
        assert forall|x: int| 0 <= x < e.len() implies #[trigger] e[x].len() == 0 by {
            assert(e[x] == edges@[x]@);
        }
        assert forall|v: int| 0 <= v < e.len() implies #[trigger] ind@[v] == in_degree(e, v) by {
            lemma_empty_rows(e, e.len() as int, v);
        }
        lemma_empty_rows_len(e);
    }
    (edges, outd, ind)
}

/// Lays the chain edges of a degree split on `total` empty rows, counting
/// degrees as it goes: the out-chains first, then the in-chains.
pub(crate) fn build_chains(outaux: &Vec<Vec<usize>>, inaux: &Vec<Vec<usize>>, n: usize, total: usize, Ghost(lay): Ghost<Layout>) -> (res: (
    Vec<Vec<(usize, i64)>>,
    Vec<usize>,
    Vec<usize>,
))
    requires
        lay.valid(),
        lay.n == n,
        lay.total == total,
        lists_follow(outaux@, lay.ob, n as int),
        lists_follow(inaux@, lay.ib, n as int),
    ensures
        counted(rows_of(res.0@), res.1@, res.2@),
        chains_ok(lay, rows_of(res.0@), res.2@),
{
    let (mut edges, mut outd, mut ind) = empty_rows(total);
    let ghost ob = lay.ob;
    let ghost mid = lay.mid;
    proof {
        assert(ob[0] == n);
        assert forall|u2: int, i: int|
            0 <= u2 < n && 0 <= i <= lay.ko(u2) implies rows_of(edges@)[#[trigger] member(ob, u2, i)] =~= seq![] by {
            lemma_member_range(ob, lay.oo, n as int, n as int, mid, u2, i);
        }
    }
    let mut u: usize = 0;
    while u < n
        invariant
            lay.valid(),
            lay.n == n,
            lay.total == total,
            ob == lay.ob,
            mid == lay.mid,
            lists_follow(outaux@, ob, n as int),
            u <= n,
            counted(rows_of(edges@), outd@, ind@),
            rows_of(edges@).len() == total,
            forall|u2: int, i: int|
                0 <= u2 < n && 0 <= i <= lay.ko(u2) ==> rows_of(edges@)[#[trigger] member(ob, u2, i)] == (if u2 < u {
                    out_chain_row(ob, u2, i)
                } else {
                    seq![]
                }),
            forall|x: int| mid <= x < total ==> (#[trigger] rows_of(edges@)[x]).len() == 0,
            forall|x: int| 0 <= x < total ==> #[trigger] ind@[x] == (if n <= x < ob[u as int] { 1int } else { 0int }),
            rows_len_p(rows_of(edges@)) == ob[u as int] - n,
        decreases n - u,
    {
        let len = outaux[u].len();
        proof {
            assert(outaux@[u as int]@.len() == lay.ko(u as int) + 1);
        }
        let mut i: usize = 1;
        while i < len
            invariant
                lay.valid(),
                lay.n == n,
                lay.total == total,
                ob == lay.ob,
                mid == lay.mid,
                lists_follow(outaux@, ob, n as int),
                u < n,
                len == lay.ko(u as int) + 1,
                1 <= i <= len,
                counted(rows_of(edges@), outd@, ind@),
                rows_of(edges@).len() == total,
                forall|u2: int, i2: int|
                    0 <= u2 < n && 0 <= i2 <= lay.ko(u2) ==> rows_of(edges@)[#[trigger] member(ob, u2, i2)] == (if u2
                        < u || (u2 == u && i2 < i - 1) {
                        out_chain_row(ob, u2, i2)
                    } else {
                        seq![]
                    }),
                forall|x: int| mid <= x < total ==> (#[trigger] rows_of(edges@)[x]).len() == 0,
                forall|x: int|
                    0 <= x < total ==> #[trigger] ind@[x] == (if n <= x < ob[u as int] + i - 1 { 1int } else { 0int }),
                rows_len_p(rows_of(edges@)) == ob[u as int] - n + i - 1,
            decreases len - i,
        {
            let a = outaux[u][i - 1];
            let b = outaux[u][i];
            let ghost e0 = rows_of(edges@);
            let ghost ind0 = ind@;
            proof {
                assert(a == member(ob, u as int, i - 1));
                assert(b == member(ob, u as int, i as int));
                lemma_member_range(ob, lay.oo, n as int, n as int, mid, u as int, i - 1);
                lemma_member_range(ob, lay.oo, n as int, n as int, mid, u as int, i as int);
                assert(e0[a as int].len() == 0);
            }
            add_counted(&mut edges, &mut outd, &mut ind, a, b, 0);
            proof {
                let e1 = rows_of(edges@);
                assert forall|u2: int, i2: int|
                    0 <= u2 < n && 0 <= i2 <= lay.ko(u2) implies e1[#[trigger] member(ob, u2, i2)] == (if u2 < u || (u2
                        == u && i2 < i) {
                        out_chain_row(ob, u2, i2)
                    } else {
                        seq![]
                    }) by {
                    if member(ob, u2, i2) == a {
                        lemma_member_inj(ob, lay.oo, n as int, n as int, mid, u2, i2, u as int, i - 1);
                        assert(e1[a as int] =~= seq![(b, 0i64)]);
                    } else {
                        lemma_member_range(ob, lay.oo, n as int, n as int, mid, u2, i2);
                    }
                }
                assert forall|x: int| mid <= x < total implies (#[trigger] e1[x]).len() == 0 by {
                    assert(x != a);
                }
            }
            i += 1;
        }
        proof {
            let e1 = rows_of(edges@);
            assert forall|u2: int, i2: int|
                0 <= u2 < n && 0 <= i2 <= lay.ko(u2) implies e1[#[trigger] member(ob, u2, i2)] == (if u2 < u + 1 {
                    out_chain_row(ob, u2, i2)
                } else {
                    seq![]
                }) by {
                if u2 == u && i2 == lay.ko(u2) {
                    assert(out_chain_row(ob, u2, i2) =~= seq![]);
                }
            }
        }
        u += 1;
    }
    proof {
        assert(ob[n as int] == mid);
    }
    build_in_chains(inaux, n, total, Ghost(lay), edges, outd, ind)
}

/// The in-chains, laid on rows that hold the out-chains.
fn build_in_chains(
    inaux: &Vec<Vec<usize>>,
    n: usize,
    total: usize,
    Ghost(lay): Ghost<Layout>,
    edges: Vec<Vec<(usize, i64)>>,
    outd: Vec<usize>,
    ind: Vec<usize>,
) -> (res: (Vec<Vec<(usize, i64)>>, Vec<usize>, Vec<usize>))
    requires
        lay.valid(),
        lay.n == n,
        lay.total == total,
        lists_follow(inaux@, lay.ib, n as int),
        counted(rows_of(edges@), outd@, ind@),
        rows_of(edges@).len() == total,
        forall|u2: int, i: int|
            0 <= u2 < n && 0 <= i <= lay.ko(u2) ==> rows_of(edges@)[#[trigger] member(lay.ob, u2, i)] == out_chain_row(
                lay.ob,
                u2,
                i,
            ),
        forall|x: int| lay.mid <= x < total ==> (#[trigger] rows_of(edges@)[x]).len() == 0,
        forall|x: int| 0 <= x < total ==> #[trigger] ind@[x] == (if n <= x < lay.mid { 1int } else { 0int }),
        rows_len_p(rows_of(edges@)) == lay.mid - n,
    ensures
        counted(rows_of(res.0@), res.1@, res.2@),
        chains_ok(lay, rows_of(res.0@), res.2@),
{
    let mut edges = edges;
    let mut outd = outd;
    let mut ind = ind;
    let ghost ob = lay.ob;
    let ghost ib = lay.ib;
    let ghost mid = lay.mid;
    proof {
        assert forall|v2: int, i: int|
            0 <= v2 < n && 1 <= i <= lay.ki(v2) implies #[trigger] rows_of(edges@)[member(ib, v2, i)] =~= seq![] by {
            lemma_member_range(ib, lay.io, n as int, mid, total as int, v2, i);
        }
        assert forall|v2: int, i: int|
            0 <= v2 < n && 0 <= i <= lay.ki(v2) implies ind@[#[trigger] member(ib, v2, i)] == 0 by {
            lemma_member_range(ib, lay.io, n as int, mid, total as int, v2, i);
        }
    }
    let mut v: usize = 0;
    while v < n
        invariant
            lay.valid(),
            lay.n == n,
            lay.total == total,
            ob == lay.ob,
            ib == lay.ib,
            mid == lay.mid,
            lists_follow(inaux@, ib, n as int),
            v <= n,
            counted(rows_of(edges@), outd@, ind@),
            rows_of(edges@).len() == total,
            forall|u2: int, i: int|
                0 <= u2 < n && 0 <= i <= lay.ko(u2) ==> rows_of(edges@)[#[trigger] member(ob, u2, i)] == out_chain_row(
                    ob,
                    u2,
                    i,
                ),
            forall|v2: int, i: int|
                0 <= v2 < n && 1 <= i <= lay.ki(v2) ==> #[trigger] rows_of(edges@)[member(ib, v2, i)] == (if v2 < v {
                    seq![(member(ib, v2, i - 1) as usize, 0i64)]
                } else {
                    seq![]
                }),
            forall|v2: int, i: int|
                0 <= v2 < n && 0 <= i <= lay.ki(v2) ==> ind@[#[trigger] member(ib, v2, i)] == (if v2 < v {
                    chain_of(i, lay.ki(v2))
                } else {
                    0
                }),
            forall|x: int| n <= x < mid ==> #[trigger] ind@[x] == 1,
            rows_len_p(rows_of(edges@)) == (mid - n) + (ib[v as int] - mid),
        decreases n - v,
    {
        let len = inaux[v].len();
        proof {
            assert(inaux@[v as int]@.len() == lay.ki(v as int) + 1);
        }
        let mut i: usize = 1;
        while i < len
            invariant
                lay.valid(),
                lay.n == n,
                lay.total == total,
                ob == lay.ob,
                ib == lay.ib,
                mid == lay.mid,
                lists_follow(inaux@, ib, n as int),
                v < n,
                len == lay.ki(v as int) + 1,
                1 <= i <= len,
                counted(rows_of(edges@), outd@, ind@),
                rows_of(edges@).len() == total,
                forall|u2: int, i2: int|
                    0 <= u2 < n && 0 <= i2 <= lay.ko(u2) ==> rows_of(edges@)[#[trigger] member(ob, u2, i2)]
                        == out_chain_row(ob, u2, i2),
                forall|v2: int, i2: int|
                    0 <= v2 < n && 1 <= i2 <= lay.ki(v2) ==> #[trigger] rows_of(edges@)[member(ib, v2, i2)] == (if v2
                        < v || (v2 == v && i2 < i) {
                        seq![(member(ib, v2, i2 - 1) as usize, 0i64)]
                    } else {
                        seq![]
                    }),
                forall|v2: int, i2: int|
                    0 <= v2 < n && 0 <= i2 <= lay.ki(v2) ==> ind@[#[trigger] member(ib, v2, i2)] == (if v2 < v {
                        chain_of(i2, lay.ki(v2))
                    } else if v2 == v && i2 < i - 1 {
                        1
                    } else {
                        0
                    }),
                forall|x: int| n <= x < mid ==> #[trigger] ind@[x] == 1,
                rows_len_p(rows_of(edges@)) == (mid - n) + (ib[v as int] - mid) + i - 1,
            decreases len - i,
        {
            let a = inaux[v][i - 1];
            let b = inaux[v][i];
            let ghost e0 = rows_of(edges@);
            proof {
                assert(a == member(ib, v as int, i - 1));
                assert(b == member(ib, v as int, i as int));
                lemma_member_range(ib, lay.io, n as int, mid, total as int, v as int, i - 1);
                lemma_member_range(ib, lay.io, n as int, mid, total as int, v as int, i as int);
                assert(e0[b as int].len() == 0);
                assert(ind@[a as int] == 0);
            }
            let ghost ind0 = ind@;
            add_counted(&mut edges, &mut outd, &mut ind, b, a, 0);
            proof {
                lemma_in_chain_step(lay, e0, rows_of(edges@), ind0, ind@, v as int, i as int);
            }
            i += 1;
        }
        v += 1;
    }
    (edges, outd, ind)
}

/// One in-chain edge leaves the out-chains alone.
#[verifier::spinoff_prover]
proof fn lemma_in_step_out_rows(lay: Layout, e0: Seq<Seq<(usize, i64)>>, e1: Seq<Seq<(usize, i64)>>, b: int)
    requires
        lay.valid(),
        lay.mid <= b < lay.total,
        e0.len() == lay.total,
        e1.len() == lay.total,
        forall|x: int| 0 <= x < lay.total && x != b ==> #[trigger] e1[x] == e0[x],
        forall|u2: int, i2: int|
            0 <= u2 < lay.n && 0 <= i2 <= lay.ko(u2) ==> e0[#[trigger] member(lay.ob, u2, i2)] == out_chain_row(
                lay.ob,
                u2,
                i2,
            ),
    ensures
        forall|u2: int, i2: int|
            0 <= u2 < lay.n && 0 <= i2 <= lay.ko(u2) ==> e1[#[trigger] member(lay.ob, u2, i2)] == out_chain_row(
                lay.ob,
                u2,
                i2,
            ),
{
    assert forall|u2: int, i2: int|
        0 <= u2 < lay.n && 0 <= i2 <= lay.ko(u2) implies e1[#[trigger] member(lay.ob, u2, i2)] == out_chain_row(
            lay.ob,
            u2,
            i2,
        ) by {
        lemma_member_range(lay.ob, lay.oo, lay.n, lay.n, lay.mid, u2, i2);
    }
}

/// One in-chain edge, from member `i` of the chain of `v` to member `i - 1`.
#[verifier::spinoff_prover]
proof fn lemma_in_chain_step(
    lay: Layout,
    e0: Seq<Seq<(usize, i64)>>,
    e1: Seq<Seq<(usize, i64)>>,
    ind0: Seq<usize>,
    ind1: Seq<usize>,
    v: int,
    i: int,
)
    requires
        lay.valid(),
        0 <= v < lay.n,
        1 <= i <= lay.ki(v),
        e0.len() == lay.total,
        ind0.len() == lay.total,
        e1 == e0.update(member(lay.ib, v, i), e0[member(lay.ib, v, i)].push((member(lay.ib, v, i - 1) as usize, 0i64))),
        ind1 == ind0.update(member(lay.ib, v, i - 1), (ind0[member(lay.ib, v, i - 1)] + 1) as usize),
        forall|u2: int, i2: int|
            0 <= u2 < lay.n && 0 <= i2 <= lay.ko(u2) ==> e0[#[trigger] member(lay.ob, u2, i2)] == out_chain_row(
                lay.ob,
                u2,
                i2,
            ),
        forall|v2: int, i2: int|
            0 <= v2 < lay.n && 1 <= i2 <= lay.ki(v2) ==> #[trigger] e0[member(lay.ib, v2, i2)] == (if v2 < v || (v2
                == v && i2 < i) {
                seq![(member(lay.ib, v2, i2 - 1) as usize, 0i64)]
            } else {
                seq![]
            }),
        forall|v2: int, i2: int|
            0 <= v2 < lay.n && 0 <= i2 <= lay.ki(v2) ==> ind0[#[trigger] member(lay.ib, v2, i2)] == (if v2 < v {
                chain_of(i2, lay.ki(v2))
            } else if v2 == v && i2 < i - 1 {
                1
            } else {
                0
            }),
        forall|x: int| lay.n <= x < lay.mid ==> #[trigger] ind0[x] == 1,
    ensures
        forall|u2: int, i2: int|
            0 <= u2 < lay.n && 0 <= i2 <= lay.ko(u2) ==> e1[#[trigger] member(lay.ob, u2, i2)] == out_chain_row(
                lay.ob,
                u2,
                i2,
            ),
        forall|v2: int, i2: int|
            0 <= v2 < lay.n && 1 <= i2 <= lay.ki(v2) ==> #[trigger] e1[member(lay.ib, v2, i2)] == (if v2 < v || (v2
                == v && i2 < i + 1) {
                seq![(member(lay.ib, v2, i2 - 1) as usize, 0i64)]
            } else {
                seq![]
            }),
        forall|v2: int, i2: int|
            0 <= v2 < lay.n && 0 <= i2 <= lay.ki(v2) ==> ind1[#[trigger] member(lay.ib, v2, i2)] == (if v2 < v {
                chain_of(i2, lay.ki(v2))
            } else if v2 == v && i2 < i {
                1
            } else {
                0
            }),
        forall|x: int| lay.n <= x < lay.mid ==> #[trigger] ind1[x] == 1,
{
    let ob = lay.ob;
    let ib = lay.ib;
    let n = lay.n;
    let mid = lay.mid;
    let total = lay.total;
    let a = member(ib, v, i - 1);
    let b = member(ib, v, i);
    lemma_member_range(ib, lay.io, n, mid, total, v, i - 1);
    lemma_member_range(ib, lay.io, n, mid, total, v, i);
    lemma_in_step_out_rows(lay, e0, e1, b);
    lemma_in_step_in_rows(lay, e0, e1, v, i);
    assert forall|v2: int, i2: int|
        0 <= v2 < n && 0 <= i2 <= lay.ki(v2) implies ind1[#[trigger] member(ib, v2, i2)] == (if v2 < v {
            chain_of(i2, lay.ki(v2))
        } else if v2 == v && i2 < i {
            1
        } else {
            0
        }) by {
        lemma_member_range(ib, lay.io, n, mid, total, v2, i2);
        if member(ib, v2, i2) == a {
            lemma_member_inj(ib, lay.io, n, mid, total, v2, i2, v, i - 1);
        }
    }
}

/// One in-chain edge, on the rows of the in-chains.
#[verifier::spinoff_prover]
proof fn lemma_in_step_in_rows(lay: Layout, e0: Seq<Seq<(usize, i64)>>, e1: Seq<Seq<(usize, i64)>>, v: int, i: int)
    requires
        lay.valid(),
        0 <= v < lay.n,
        1 <= i <= lay.ki(v),
        e0.len() == lay.total,
        e1 == e0.update(member(lay.ib, v, i), e0[member(lay.ib, v, i)].push((member(lay.ib, v, i - 1) as usize, 0i64))),
        forall|v2: int, i2: int|
            0 <= v2 < lay.n && 1 <= i2 <= lay.ki(v2) ==> #[trigger] e0[member(lay.ib, v2, i2)] == (if v2 < v || (v2
                == v && i2 < i) {
                seq![(member(lay.ib, v2, i2 - 1) as usize, 0i64)]
            } else {
                seq![]
            }),
    ensures
        forall|v2: int, i2: int|
            0 <= v2 < lay.n && 1 <= i2 <= lay.ki(v2) ==> #[trigger] e1[member(lay.ib, v2, i2)] == (if v2 < v || (v2
                == v && i2 < i + 1) {
                seq![(member(lay.ib, v2, i2 - 1) as usize, 0i64)]
            } else {
                seq![]
            }),
{
    let ib = lay.ib;
    let a = member(ib, v, i - 1);
    let b = member(ib, v, i);
    lemma_member_range(ib, lay.io, lay.n, lay.mid, lay.total, v, i);
    assert forall|v2: int, i2: int|
        0 <= v2 < lay.n && 1 <= i2 <= lay.ki(v2) implies #[trigger] e1[member(ib, v2, i2)] == (if v2 < v || (v2 == v
            && i2 < i + 1) {
            seq![(member(ib, v2, i2 - 1) as usize, 0i64)]
        } else {
            seq![]
        }) by {
        lemma_member_range(ib, lay.io, lay.n, lay.mid, lay.total, v2, i2);
        if member(ib, v2, i2) == b {
            lemma_member_inj(ib, lay.io, lay.n, lay.mid, lay.total, v2, i2, v, i);
            assert(e0[b].len() == 0);
            assert(e1[b] =~= seq![(a as usize, 0i64)]);
        }
    }
}

/// Row `x` stays inside `0..total`, has no self-loop and no repeated target.
pub open spec fn row_ok(e: Seq<Seq<(usize, i64)>>, x: int, total: int) -> bool {
    &&& forall|p: int| 0 <= p < e[x].len() ==> #[trigger] e[x][p].0 < total && e[x][p].0 != x
    &&& forall|p: int, q: int| 0 <= p < q < e[x].len() ==> #[trigger] e[x][p].0 != #[trigger] e[x][q].0
}

/// One of the first `j` edges of `row` points to `v`.
pub open spec fn seen_target(row: Seq<(usize, i64)>, j: int, v: int) -> bool {
    exists|jj: int| 0 <= jj < j && #[trigger] row[jj].0 == v
}

/// A target in an out-side row: an out-side auxiliary (the end of a chain edge), or
/// a vertex of the in-chain of one of the first `j` targets of `row`.
pub open spec fn chain_or_image(lay: Layout, row: Seq<(usize, i64)>, j: int, t: int) -> bool {
    ||| lay.n <= t < lay.mid
    ||| (t < lay.n || lay.mid <= t < lay.total) && seen_target(row, j, lay.in_owner(t))
}

/// Edges placed so far into `v`: those of rows `0..u` and the first `j` of row `u`.
pub open spec fn placed_into(ge: Seq<Seq<(usize, i64)>>, u: int, j: int, v: int) -> int {
    (in_upto(ge, u, v) + count_to(ge[u].take(j), v)) as int
}

/// The state of the edge placement after the first `j` edges of row `u`.
pub open spec fn assign_inv(
    lay: Layout,
    ge: Seq<Seq<(usize, i64)>>,
    d: int,
    e: Seq<Seq<(usize, i64)>>,
    outd: Seq<usize>,
    ind: Seq<usize>,
    olen: Seq<usize>,
    ilen: Seq<usize>,
    u: int,
    j: int,
) -> bool {
    let n = lay.n;
    let mid = lay.mid;
    let total = lay.total;
    &&& e.len() == total
    &&& counted(e, outd, ind)
    &&& olen.len() == n
    &&& ilen.len() == n
    &&& forall|x: int| 0 <= x < total ==> #[trigger] row_ok(e, x, total)
    &&& forall|x: int, p: int|
        0 <= x < mid && lay.out_owner(x) > u && 0 <= p < e[x].len() ==> n <= (#[trigger] e[x][p]).0 < mid
    &&& forall|x: int, p: int|
        0 <= x < mid && lay.out_owner(x) == u && 0 <= p < e[x].len() ==> chain_or_image(lay, ge[u], j, (#[trigger] e[x][p]).0 as int)
    &&& forall|x: int| mid <= x < total ==> #[trigger] outd[x] <= 1
    &&& forall|x: int| n <= x < mid ==> #[trigger] ind[x] <= 1
    &&& forall|x: int| 0 <= x < mid && lay.out_owner(x) < u ==> #[trigger] outd[x] <= d
    &&& forall|u2: int|
        u < u2 < n ==> #[trigger] olen[u2] == lay.ko(u2) + 1 && list_state(outd, lay.ob, u2, lay.ko(u2), lay.ko(u2) + 1, d, 0)
    &&& u < n ==> list_state(outd, lay.ob, u, lay.ko(u), olen[u] as int, d, j)
    &&& forall|v: int| 0 <= v < n ==> list_state(ind, lay.ib, v, lay.ki(v), #[trigger] ilen[v] as int, d, placed_into(ge, u, j, v))
    &&& rows_len_p(e) == (total - n) + rows_len_p(ge.take(u)) + j
}

/// Where the out-side vertex `x` sits: its owner's chain, at index `i`.
pub proof fn lemma_out_position(lay: Layout, x: int) -> (i: int)
    requires
        lay.valid(),
        0 <= x < lay.mid,
    ensures
        0 <= lay.out_owner(x) < lay.n,
        0 <= i <= lay.ko(lay.out_owner(x)),
        member(lay.ob, lay.out_owner(x), i) == x,
        x < lay.n <==> i == 0,
{
    if x < lay.n {
        0
    } else {
        lemma_aux_member(lay.ob, lay.oo, lay.n, lay.n, lay.mid, x);
        x - lay.ob[lay.oo[x]] + 1
    }
}

/// Where the in-side vertex `x` sits: its owner's in-chain, at index `i`.
pub proof fn lemma_in_position(lay: Layout, x: int) -> (i: int)
    requires
        lay.valid(),
        0 <= x < lay.n || lay.mid <= x < lay.total,
    ensures
        0 <= lay.in_owner(x) < lay.n,
        0 <= i <= lay.ki(lay.in_owner(x)),
        member(lay.ib, lay.in_owner(x), i) == x,
        x < lay.n <==> i == 0,
{
    if x < lay.n {
        0
    } else {
        lemma_aux_member(lay.ib, lay.io, lay.n, lay.mid, lay.total, x);
        x - lay.ib[lay.io[x]] + 1
    }
}

/// The chain graph is a valid starting point for the placement.
#[verifier::spinoff_prover]
pub proof fn lemma_assign_init(
    lay: Layout,
    ge: Seq<Seq<(usize, i64)>>,
    d: int,
    e: Seq<Seq<(usize, i64)>>,
    outd: Seq<usize>,
    ind: Seq<usize>,
    olen: Seq<usize>,
    ilen: Seq<usize>,
)
    requires
        lay.valid(),
        d >= 2,
        counted(e, outd, ind),
        chains_ok(lay, e, ind),
        olen.len() == lay.n,
        ilen.len() == lay.n,
        forall|u: int| 0 <= u < lay.n ==> #[trigger] olen[u] == lay.ko(u) + 1,
        forall|v: int| 0 <= v < lay.n ==> #[trigger] ilen[v] == lay.ki(v) + 1,
    ensures
        assign_inv(lay, ge, d, e, outd, ind, olen, ilen, 0, 0),
{
    let n = lay.n;
    let mid = lay.mid;
    let total = lay.total;
    let ob = lay.ob;
    let ib = lay.ib;
    assert forall|x: int, p: int| 0 <= x < mid && 0 <= p < e[x].len() implies n <= (#[trigger] e[x][p]).0 < mid by {
        let i = lemma_out_position(lay, x);
        let u = lay.out_owner(x);
        assert(e[member(ob, u, i)] == out_chain_row(ob, u, i));
        lemma_member_range(ob, lay.oo, n, n, mid, u, i + 1);
    }
    assert forall|x: int| mid <= x < total implies #[trigger] outd[x] <= 1 && e[x].len() == 1 && e[x][0].0 != x && (
    e[x][0].0 < n || mid <= e[x][0].0 < total) by {
        let i = lemma_in_position(lay, x);
        let v = lay.in_owner(x);
        assert(e[member(ib, v, i)] == seq![(member(ib, v, i - 1) as usize, 0i64)]);
        lemma_member_range(ib, lay.io, n, mid, total, v, i - 1);
        if member(ib, v, i - 1) == x {
            lemma_member_inj(ib, lay.io, n, mid, total, v, i - 1, v, i);
        }
    }
    assert forall|x: int| 0 <= x < total implies #[trigger] row_ok(e, x, total) by {
        if x < mid {
            let i = lemma_out_position(lay, x);
            let u = lay.out_owner(x);
            assert(e[member(ob, u, i)] == out_chain_row(ob, u, i));
            if i < lay.ko(u) {
                lemma_member_range(ob, lay.oo, n, n, mid, u, i + 1);
                if member(ob, u, i + 1) == x {
                    lemma_member_inj(ob, lay.oo, n, n, mid, u, i + 1, u, i);
                }
            }
        } else {
            assert(outd[x] <= 1);
        }
    }
    assert forall|u2: int|
        0 < u2 < n implies #[trigger] olen[u2] == lay.ko(u2) + 1 && list_state(outd, ob, u2, lay.ko(u2), lay.ko(u2) + 1, d, 0) by {
        assert forall|i: int| 0 <= i <= lay.ko(u2) implies outd[#[trigger] member(ob, u2, i)] == chain_of(i, lay.ko(u2)) by {
            assert(e[member(ob, u2, i)] == out_chain_row(ob, u2, i));
            lemma_member_range(ob, lay.oo, n, n, mid, u2, i);
        }
        assert(outd[member(ob, u2, lay.ko(u2))] == 0);
    }
    if n > 0 {
        assert forall|i: int| 0 <= i <= lay.ko(0) implies outd[#[trigger] member(ob, 0, i)] == chain_of(i, lay.ko(0)) by {
            assert(e[member(ob, 0, i)] == out_chain_row(ob, 0, i));
            lemma_member_range(ob, lay.oo, n, n, mid, 0, i);
        }
        assert(outd[member(ob, 0, lay.ko(0))] == 0);
    }
    assert forall|v: int| 0 <= v < n implies list_state(ind, ib, v, lay.ki(v), #[trigger] ilen[v] as int, d, placed_into(ge, 0, 0, v)) by {
        assert(ind[member(ib, v, lay.ki(v))] == chain_of(lay.ki(v), lay.ki(v)));
        assert(ge[0].take(0).len() == 0);
    }
    assert(ge.take(0).len() == 0);
}

/// Placing edge `j` of row `u`, `u -> v` of weight `w`, as the edge `uu -> vv`
/// between the open ends of the out-chain of `u` and the in-chain of `v`.
#[verifier::spinoff_prover]
pub proof fn lemma_assign_step(
    lay: Layout,
    ge: Seq<Seq<(usize, i64)>>,
    d: int,
    e: Seq<Seq<(usize, i64)>>,
    outd: Seq<usize>,
    ind: Seq<usize>,
    olen: Seq<usize>,
    ilen: Seq<usize>,
    u: int,
    j: int,
    v: int,
    uu: int,
    vv: int,
    w: i64,
    e2: Seq<Seq<(usize, i64)>>,
    outd2: Seq<usize>,
    ind2: Seq<usize>,
)
    requires
        lay.valid(),
        simple(lay.n, ge),
        0 <= u < lay.n,
        0 <= j < ge[u].len(),
        v == ge[u][j].0,
        2 <= d <= usize::MAX,
        assign_inv(lay, ge, d, e, outd, ind, olen, ilen, u, j),
        uu == member(lay.ob, u, olen[u] - 1),
        vv == member(lay.ib, v, ilen[v] - 1),
        outd[uu] < d,
        ind[vv] < d,
        e2 == e.update(uu, e[uu].push((vv as usize, w))),
        outd2 == outd.update(uu, (outd[uu] + 1) as usize),
        ind2 == ind.update(vv, (ind[vv] + 1) as usize),
        counted(e2, outd2, ind2),
        rows_len_p(e2) == rows_len_p(e) + 1,
    ensures
        assign_inv(lay, ge, d, e2, outd2, ind2, olen, ilen, u, j + 1),
{
    let n = lay.n;
    let mid = lay.mid;
    let total = lay.total;
    let ob = lay.ob;
    let ib = lay.ib;
    let lo = olen[u] as int;
    let li = ilen[v] as int;
    assert(list_state(outd, ob, u, lay.ko(u), lo, d, j));
    assert(list_state(ind, ib, v, lay.ki(v), li, d, placed_into(ge, u, j, v)));
    lemma_member_range(ob, lay.oo, n, n, mid, u, lo - 1);
    lemma_member_range(ib, lay.io, n, mid, total, v, li - 1);
    assert(lay.out_owner(uu) == u);
    assert(lay.in_owner(vv) == v);
    assert(vv != uu) by {
        if vv < n && uu < n {
            assert(ge[u][j].0 != u);
        }
    }
    // rows
    assert forall|x: int| 0 <= x < total implies #[trigger] row_ok(e2, x, total) by {
        assert(row_ok(e, x, total));
        if x == uu {
            assert forall|p: int| 0 <= p < e[uu].len() implies e[uu][p].0 != vv by {
                let t = e[uu][p].0 as int;
                assert(chain_or_image(lay, ge[u], j, t));
                if !(n <= t < mid) && t == vv {
                    let jj = choose|jj: int| 0 <= jj < j && #[trigger] ge[u][jj].0 == lay.in_owner(t);
                    assert(ge[u][jj].0 != ge[u][j].0);
                }
            }
            assert forall|p: int, q: int| 0 <= p < q < e2[x].len() implies #[trigger] e2[x][p].0 != #[trigger] e2[x][q].0 by {
                if q == e[uu].len() {
                    assert(e2[x][p] == e[uu][p]);
                } else {
                    assert(e2[x][p] == e[uu][p]);
                    assert(e2[x][q] == e[uu][q]);
                }
            }
            assert forall|p: int| 0 <= p < e2[x].len() implies #[trigger] e2[x][p].0 < total && e2[x][p].0 != x by {
                if p < e[uu].len() {
                    assert(e2[x][p] == e[uu][p]);
                }
            }
        }
    }
    assert forall|x: int, p: int|
        0 <= x < mid && lay.out_owner(x) > u && 0 <= p < e2[x].len() implies n <= (#[trigger] e2[x][p]).0 < mid by {
        assert(x != uu);
        assert(e2[x][p] == e[x][p]);
    }
    assert forall|x: int, p: int|
        0 <= x < mid && lay.out_owner(x) == u && 0 <= p < e2[x].len() implies chain_or_image(
        lay,
        ge[u],
        j + 1,
        (#[trigger] e2[x][p]).0 as int,
    ) by {
        if x == uu && p == e[uu].len() {
            assert(e2[x][p].0 == vv);
            assert(ge[u][j].0 == lay.in_owner(vv));
            assert(seen_target(ge[u], j + 1, lay.in_owner(vv)));
        } else {
            assert(e2[x][p] == e[x][p]);
            let t = e[x][p].0 as int;
            assert(chain_or_image(lay, ge[u], j, t));
            if !(n <= t < mid) {
                let jj = choose|jj: int| 0 <= jj < j && #[trigger] ge[u][jj].0 == lay.in_owner(t);
                assert(seen_target(ge[u], j + 1, lay.in_owner(t)));
            }
        }
    }
    assert forall|x: int| mid <= x < total implies #[trigger] outd2[x] <= 1 by {
        assert(outd[x] <= 1);
    }
    assert forall|x: int| n <= x < mid implies #[trigger] ind2[x] <= 1 by {
        assert(ind[x] <= 1);
    }
    assert forall|x: int| 0 <= x < mid && lay.out_owner(x) < u implies #[trigger] outd2[x] <= d by {
        assert(outd[x] <= d);
    }
    // out lists
    lemma_list_push(outd, ob, u, lay.ko(u), lo, d, j);
    lemma_out_lists_other(lay, d, outd, olen, u, lo - 1, (outd[uu] + 1) as usize);
    // in lists
    assert forall|v2: int| 0 <= v2 < n implies list_state(
        ind2,
        ib,
        v2,
        lay.ki(v2),
        #[trigger] ilen[v2] as int,
        d,
        placed_into(ge, u, j + 1, v2),
    ) by {
        lemma_count_to_take(ge[u], j, v2);
        assert(list_state(ind, ib, v2, lay.ki(v2), ilen[v2] as int, d, placed_into(ge, u, j, v2)));
        if v2 == v {
            lemma_list_push(ind, ib, v, lay.ki(v), li, d, placed_into(ge, u, j, v));
        } else {
            if is_member(ib, v2, lay.ki(v2), vv) {
                if vv != v2 {
                    assert(lay.io[vv] == v2);
                }
            }
            lemma_list_other(ind, ib, v2, lay.ki(v2), ilen[v2] as int, d, placed_into(ge, u, j, v2), vv, (ind[vv] + 1) as usize);
        }
    }
}

/// Changing the degree of a member of the out-chain of `u` leaves the chains of
/// the later vertices alone.
#[verifier::spinoff_prover]
pub proof fn lemma_out_lists_other(lay: Layout, d: int, outd: Seq<usize>, olen: Seq<usize>, u: int, i: int, val: usize)
    requires
        lay.valid(),
        0 <= u < lay.n,
        0 <= i <= lay.ko(u),
        outd.len() == lay.total,
        forall|u2: int|
            u < u2 < lay.n ==> #[trigger] olen[u2] == lay.ko(u2) + 1 && list_state(
                outd,
                lay.ob,
                u2,
                lay.ko(u2),
                lay.ko(u2) + 1,
                d,
                0,
            ),
    ensures
        forall|u2: int|
            u < u2 < lay.n ==> #[trigger] olen[u2] == lay.ko(u2) + 1 && list_state(
                outd.update(member(lay.ob, u, i), val),
                lay.ob,
                u2,
                lay.ko(u2),
                lay.ko(u2) + 1,
                d,
                0,
            ),
{
    let ob = lay.ob;
    let x = member(ob, u, i);
    lemma_member_range(ob, lay.oo, lay.n, lay.n, lay.mid, u, i);
    assert forall|u2: int|
        u < u2 < lay.n implies #[trigger] olen[u2] == lay.ko(u2) + 1 && list_state(
        outd.update(x, val),
        ob,
        u2,
        lay.ko(u2),
        lay.ko(u2) + 1,
        d,
        0,
    ) by {
        assert(olen[u2] == lay.ko(u2) + 1);
        if is_member(ob, u2, lay.ko(u2), x) {
            if x != u2 {
                assert(lay.oo[x] == u2);
            }
        }
        lemma_member_range(ob, lay.oo, lay.n, lay.n, lay.mid, u2, 0);
        lemma_list_other(outd, ob, u2, lay.ko(u2), lay.ko(u2) + 1, d, 0, x, val);
    }
}

/// Closing the open end of the out-chain of `u` keeps the placement state.
#[verifier::spinoff_prover]
pub proof fn lemma_pop_out(
    lay: Layout,
    ge: Seq<Seq<(usize, i64)>>,
    d: int,
    e: Seq<Seq<(usize, i64)>>,
    outd: Seq<usize>,
    ind: Seq<usize>,
    olen: Seq<usize>,
    ilen: Seq<usize>,
    u: int,
    j: int,
    len: usize,
)
    requires
        0 <= u < lay.n,
        assign_inv(lay, ge, d, e, outd, ind, olen, ilen, u, j),
        list_state(outd, lay.ob, u, lay.ko(u), len as int, d, j),
    ensures
        assign_inv(lay, ge, d, e, outd, ind, olen.update(u, len), ilen, u, j),
{
    let o2 = olen.update(u, len);
    assert forall|u2: int|
        u < u2 < lay.n implies #[trigger] o2[u2] == lay.ko(u2) + 1 && list_state(
        outd,
        lay.ob,
        u2,
        lay.ko(u2),
        lay.ko(u2) + 1,
        d,
        0,
    ) by {
        assert(olen[u2] == lay.ko(u2) + 1);
    }
    assert(o2.len() == lay.n);
    assert(o2[u] == len);
    assert(list_state(outd, lay.ob, u, lay.ko(u), o2[u] as int, d, j));
}

/// Closing the open end of the in-chain of `v` keeps the placement state.
#[verifier::spinoff_prover]
pub proof fn lemma_pop_in(
    lay: Layout,
    ge: Seq<Seq<(usize, i64)>>,
    d: int,
    e: Seq<Seq<(usize, i64)>>,
    outd: Seq<usize>,
    ind: Seq<usize>,
    olen: Seq<usize>,
    ilen: Seq<usize>,
    u: int,
    j: int,
    v: int,
    len: usize,
)
    requires
        0 <= v < lay.n,
        assign_inv(lay, ge, d, e, outd, ind, olen, ilen, u, j),
        list_state(ind, lay.ib, v, lay.ki(v), len as int, d, placed_into(ge, u, j, v)),
    ensures
        assign_inv(lay, ge, d, e, outd, ind, olen, ilen.update(v, len), u, j),
{
    let i2 = ilen.update(v, len);
    assert forall|v2: int| 0 <= v2 < lay.n implies list_state(
        ind,
        lay.ib,
        v2,
        lay.ki(v2),
        #[trigger] i2[v2] as int,
        d,
        placed_into(ge, u, j, v2),
    ) by {
        if v2 != v {
            assert(list_state(ind, lay.ib, v2, lay.ki(v2), ilen[v2] as int, d, placed_into(ge, u, j, v2)));
        }
    }
}

/// An edge still to be placed into `v` means fewer than its in-degree are placed.
pub proof fn lemma_placed_lt(ge: Seq<Seq<(usize, i64)>>, u: int, j: int)
    requires
        0 <= u < ge.len(),
        0 <= j < ge[u].len(),
    ensures
        placed_into(ge, u, j, ge[u][j].0 as int) < in_degree(ge, ge[u][j].0 as int),
{
    let v = ge[u][j].0 as int;
    lemma_count_to_take(ge[u], j, v);
    lemma_count_to_prefix(ge[u], j + 1, v);
    lemma_in_upto_mono(ge, u + 1, ge.len() as int, v);
}

/// Moving on to the next row once row `u` is placed.
#[verifier::spinoff_prover]
pub proof fn lemma_assign_next_row(
    lay: Layout,
    ge: Seq<Seq<(usize, i64)>>,
    d: int,
    e: Seq<Seq<(usize, i64)>>,
    outd: Seq<usize>,
    ind: Seq<usize>,
    olen: Seq<usize>,
    ilen: Seq<usize>,
    u: int,
)
    requires
        lay.valid(),
        d >= 2,
        ge.len() == lay.n,
        0 <= u < lay.n,
        assign_inv(lay, ge, d, e, outd, ind, olen, ilen, u, ge[u].len() as int),
    ensures
        assign_inv(lay, ge, d, e, outd, ind, olen, ilen, u + 1, 0),
{
    let n = lay.n;
    let len = ge[u].len() as int;
    assert forall|x: int| 0 <= x < lay.mid && lay.out_owner(x) < u + 1 implies #[trigger] outd[x] <= d by {
        if lay.out_owner(x) == u {
            let i = lemma_out_position(lay, x);
            lemma_list_state_bounded(outd, lay.ob, u, lay.ko(u), olen[u] as int, d, len, i);
        }
    }
    assert forall|x: int, p: int|
        0 <= x < lay.mid && lay.out_owner(x) == u + 1 && 0 <= p < e[x].len() implies chain_or_image(
        lay,
        ge[u + 1],
        0,
        (#[trigger] e[x][p]).0 as int,
    ) by {
    }
    if u + 1 < n {
        assert(olen[u + 1] == lay.ko(u + 1) + 1);
    }
    assert(ge[u].take(len) =~= ge[u]);
    assert forall|v: int| 0 <= v < n implies list_state(
        ind,
        lay.ib,
        v,
        lay.ki(v),
        #[trigger] ilen[v] as int,
        d,
        placed_into(ge, u + 1, 0, v),
    ) by {
        assert(list_state(ind, lay.ib, v, lay.ki(v), ilen[v] as int, d, placed_into(ge, u, len, v)));
        assert(ge[u + 1].take(0).len() == 0);
        assert(placed_into(ge, u + 1, 0, v) == placed_into(ge, u, len, v));
    }
    lemma_rows_len_p_prefix(ge, u);
}

/// Once every row is placed: a simple graph with all degrees within `d`.
#[verifier::spinoff_prover]
pub proof fn lemma_assign_done(
    lay: Layout,
    ge: Seq<Seq<(usize, i64)>>,
    d: int,
    e: Seq<Seq<(usize, i64)>>,
    outd: Seq<usize>,
    ind: Seq<usize>,
    olen: Seq<usize>,
    ilen: Seq<usize>,
)
    requires
        lay.valid(),
        d >= 2,
        ge.len() == lay.n,
        assign_inv(lay, ge, d, e, outd, ind, olen, ilen, lay.n, 0),
    ensures
        simple(lay.total, e),
        forall|x: int| 0 <= x < lay.total ==> (#[trigger] e[x]).len() <= d && in_degree(e, x) <= d,
        rows_len_p(e) == (lay.total - lay.n) + rows_len_p(ge),
{
    let n = lay.n;
    let total = lay.total;
    assert forall|x: int, p: int| 0 <= x < e.len() && 0 <= p < e[x].len() implies #[trigger] e[x][p].0 < total by {
        assert(row_ok(e, x, total));
    }
    assert forall|x: int, p: int| 0 <= x < total && 0 <= p < e[x].len() implies #[trigger] e[x][p].0 != x by {
        assert(row_ok(e, x, total));
    }
    assert forall|x: int, p: int, q: int|
        0 <= x < total && 0 <= p < q < e[x].len() implies #[trigger] e[x][p].0 != #[trigger] e[x][q].0 by {
        assert(row_ok(e, x, total));
    }
    assert forall|x: int| 0 <= x < total implies (#[trigger] e[x]).len() <= d && in_degree(e, x) <= d by {
        assert(outd[x] == e[x].len());
        assert(ind[x] == in_degree(e, x));
        if x < lay.mid {
            assert(outd[x] <= d);
        } else {
            assert(outd[x] <= 1);
        }
        if n <= x < lay.mid {
            assert(ind[x] <= 1);
        } else {
            let i = lemma_in_position(lay, x);
            let v = lay.in_owner(x);
            assert(list_state(ind, lay.ib, v, lay.ki(v), ilen[v] as int, d, placed_into(ge, n, 0, v)));
            lemma_list_state_bounded(ind, lay.ib, v, lay.ki(v), ilen[v] as int, d, placed_into(ge, n, 0, v), i);
        }
    }
    assert(ge.take(n) =~= ge);
}

/// Places every edge `u -> v` of `graph`, with its weight, between the open end of
/// the out-chain of `u` and that of the in-chain of `v`; an open end that already
/// carries `d` edges is closed first, and the chain's next member down takes over.
pub(crate) fn assign_edges(
    graph: &SimpleGraph,
    d: usize,
    outaux: &Vec<Vec<usize>>,
    inaux: &Vec<Vec<usize>>,
    Ghost(lay): Ghost<Layout>,
    edges: Vec<Vec<(usize, i64)>>,
    outd: Vec<usize>,
    ind: Vec<usize>,
) -> (res: Vec<Vec<(usize, i64)>>)
    requires
        graph.well_formed(),
        lay.valid(),
        lay.n == graph.n,
        lists_follow(outaux@, lay.ob, lay.n),
        lists_follow(inaux@, lay.ib, lay.n),
        2 <= d,
        forall|u: int| 0 <= u < lay.n ==> (#[trigger] graph.edges_view()[u]).len() <= room(d as int, lay.ko(u)),
        forall|v: int| 0 <= v < lay.n ==> #[trigger] in_degree(graph.edges_view(), v) <= room(d as int, lay.ki(v)),
        counted(rows_of(edges@), outd@, ind@),
        chains_ok(lay, rows_of(edges@), ind@),
    ensures
        simple(lay.total, rows_of(res@)),
        forall|x: int|
            0 <= x < lay.total ==> (#[trigger] rows_of(res@)[x]).len() <= d && in_degree(rows_of(res@), x) <= d,
        rows_len_p(rows_of(res@)) == (lay.total - lay.n) + rows_len_p(graph.edges_view()),
        split_of(lay, graph.edges_view(), rows_of(res@)),
        greedy_of(lay, graph.edges_view(), d as int, rows_of(res@)),
{
    let n = graph.n;
    let ghost ge = graph.edges_view();
    let ghost ob = lay.ob;
    let ghost ib = lay.ib;
    let mut edges = edges;
    let mut outd = outd;
    let mut ind = ind;
    let mut olen: Vec<usize> = Vec::new();
    let mut ilen: Vec<usize> = Vec::new();
    let mut u: usize = 0;
    while u < n
        invariant
            n == lay.n,
            ob == lay.ob,
            ib == lay.ib,
            lists_follow(outaux@, ob, n as int),
            lists_follow(inaux@, ib, n as int),
            u <= n,
            olen@.len() == u,
            ilen@.len() == u,
            forall|x: int| 0 <= x < u ==> #[trigger] olen@[x] == lay.ko(x) + 1,
            forall|x: int| 0 <= x < u ==> #[trigger] ilen@[x] == lay.ki(x) + 1,
        decreases n - u,
    {
        proof {
            assert(outaux@[u as int]@.len() == lay.ko(u as int) + 1);
            assert(inaux@[u as int]@.len() == lay.ki(u as int) + 1);
        }
        olen.push(outaux[u].len());
        ilen.push(inaux[u].len());
        u += 1;
    }
    proof {
        lemma_assign_init(lay, ge, d as int, rows_of(edges@), outd@, ind@, olen@, ilen@);
        lemma_split_init(lay, ge, rows_of(edges@), ind@);
        lemma_greedy_init(lay, ge, d as int, rows_of(edges@), ind@);
    }
    let mut u: usize = 0;
    while u < n
        invariant
            graph.well_formed(),
            ge == graph.edges_view(),
            n == lay.n,
            n == graph.n,
            lay.valid(),
            ob == lay.ob,
            ib == lay.ib,
            lists_follow(outaux@, ob, n as int),
            lists_follow(inaux@, ib, n as int),
            2 <= d,
            forall|x: int| 0 <= x < n ==> (#[trigger] ge[x]).len() <= room(d as int, lay.ko(x)),
            forall|v: int| 0 <= v < n ==> #[trigger] in_degree(ge, v) <= room(d as int, lay.ki(v)),
            u <= n,
            assign_inv(lay, ge, d as int, rows_of(edges@), outd@, ind@, olen@, ilen@, u as int, 0),
            split_inv(lay, ge, rows_of(edges@), u as int, 0),
            greedy_inv(lay, ge, d as int, rows_of(edges@), u as int, 0),
        decreases n - u,
    {
        proof {
            assert(ge.len() == graph.edges@.len());
        }
        let len = graph.edges[u].len();
        proof {
            assert(ge[u as int] == graph.edges@[u as int]@);
        }
        let mut j: usize = 0;
        while j < len
            invariant
                graph.well_formed(),
                ge == graph.edges_view(),
                n == lay.n,
                n == graph.n,
                lay.valid(),
                ob == lay.ob,
                ib == lay.ib,
                lists_follow(outaux@, ob, n as int),
                lists_follow(inaux@, ib, n as int),
                2 <= d,
                forall|x: int| 0 <= x < n ==> (#[trigger] ge[x]).len() <= room(d as int, lay.ko(x)),
                forall|v: int| 0 <= v < n ==> #[trigger] in_degree(ge, v) <= room(d as int, lay.ki(v)),
                u < n,
                len == ge[u as int].len(),
                j <= len,
                assign_inv(lay, ge, d as int, rows_of(edges@), outd@, ind@, olen@, ilen@, u as int, j as int),
                split_inv(lay, ge, rows_of(edges@), u as int, j as int),
                greedy_inv(lay, ge, d as int, rows_of(edges@), u as int, j as int),
            decreases len - j,
        {
            proof {
                assert(ge[u as int] == graph.edges@[u as int]@);
            }
            let (v, w) = graph.edges[u][j];
            proof {
                assert(ge[u as int][j as int] == (v, w));
                assert(v < n);
                assert(ge[u as int].len() <= room(d as int, lay.ko(u as int)));
            }
            let lo = olen[u];
            proof {
                assert(list_state(outd@, ob, u as int, lay.ko(u as int), lo as int, d as int, j as int));
            }
            let top = outaux[u][lo - 1];
            if outd[top] == d {
                proof {
                    lemma_list_pop(outd@, ob, u as int, lay.ko(u as int), lo as int, d as int, j as int);
                    lemma_pop_out(lay, ge, d as int, rows_of(edges@), outd@, ind@, olen@, ilen@, u as int, j as int, (lo - 1) as usize);
                }
                olen.set(u, lo - 1);
            } else {
                proof {
                    lemma_member_range(ob, lay.oo, n as int, n as int, lay.mid, u as int, lo - 1);
                    lemma_list_state_bounded(outd@, ob, u as int, lay.ko(u as int), lo as int, d as int, j as int, lo - 1);
                }
            }
            let li = ilen[v];
            proof {
                assert(list_state(ind@, ib, v as int, lay.ki(v as int), li as int, d as int, placed_into(ge, u as int, j as int, v as int)));
                lemma_placed_lt(ge, u as int, j as int);
                assert(in_degree(ge, v as int) <= room(d as int, lay.ki(v as int)));
            }
            let topi = inaux[v][li - 1];
            if ind[topi] == d {
                proof {
                    lemma_list_pop(ind@, ib, v as int, lay.ki(v as int), li as int, d as int, placed_into(ge, u as int, j as int, v as int));
                    lemma_pop_in(lay, ge, d as int, rows_of(edges@), outd@, ind@, olen@, ilen@, u as int, j as int, v as int, (li - 1) as usize);
                }
                ilen.set(v, li - 1);
            } else {
                proof {
                    lemma_member_range(ib, lay.io, n as int, lay.mid, lay.total, v as int, li - 1);
                    lemma_list_state_bounded(ind@, ib, v as int, lay.ki(v as int), li as int, d as int, placed_into(ge, u as int, j as int, v as int), li - 1);
                }
            }
            let uu = outaux[u][olen[u] - 1];
            let vv = inaux[v][ilen[v] - 1];
            let ghost e0 = rows_of(edges@);
            let ghost od0 = outd@;
            let ghost id0 = ind@;
            proof {
                lemma_member_range(ob, lay.oo, n as int, n as int, lay.mid, u as int, olen@[u as int] - 1);
                lemma_member_range(ib, lay.io, n as int, lay.mid, lay.total, v as int, ilen@[v as int] - 1);
            }
            add_counted(&mut edges, &mut outd, &mut ind, uu, vv, w);
            proof {
                lemma_assign_step(
                    lay,
                    ge,
                    d as int,
                    e0,
                    od0,
                    id0,
                    olen@,
                    ilen@,
                    u as int,
                    j as int,
                    v as int,
                    uu as int,
                    vv as int,
                    w,
                    rows_of(edges@),
                    outd@,
                    ind@,
                );
                lemma_split_step(lay, ge, e0, u as int, j as int, uu as int, vv as int, rows_of(edges@));
                lemma_greedy_step(
                    lay,
                    ge,
                    d as int,
                    e0,
                    od0,
                    id0,
                    olen@,
                    ilen@,
                    u as int,
                    j as int,
                    v as int,
                    uu as int,
                    vv as int,
                    rows_of(edges@),
                );
            }
            j += 1;
        }
        proof {
            lemma_assign_next_row(lay, ge, d as int, rows_of(edges@), outd@, ind@, olen@, ilen@, u as int);
            lemma_greedy_next_row(lay, ge, d as int, rows_of(edges@), u as int);
            let e = rows_of(edges@);
            assert forall|u2: int, j2: int|
                #![trigger ge[u2][j2]]
                0 <= u2 < n && 0 <= j2 < ge[u2].len() && u2 < u + 1 implies has_image(
                lay,
                e,
                u2,
                ge[u2][j2].0 as int,
                ge[u2][j2].1,
            ) by {
            }
        }
        u += 1;
    }
    proof {
        lemma_assign_done(lay, ge, d as int, rows_of(edges@), outd@, ind@, olen@, ilen@);
    }
    edges
}

/// The edge `x -> t` of weight `w` of a split graph is a zero-weight edge inside
/// one chain, or the image of an edge `u -> v` of weight `w` of the input graph
/// `ge`, from the out-chain of `u` to the in-chain of `v`.
pub open spec fn split_edge(lay: Layout, ge: Seq<Seq<(usize, i64)>>, x: int, t: int, w: i64) -> bool {
    ||| w == 0 && 0 <= x < lay.mid && lay.n <= t < lay.mid && lay.out_owner(t) == lay.out_owner(x)
    ||| w == 0 && lay.mid <= x < lay.total && (0 <= t < lay.n || lay.mid <= t < lay.total) && lay.in_owner(t)
        == lay.in_owner(x)
    ||| 0 <= x < lay.mid && (0 <= t < lay.n || lay.mid <= t < lay.total) && ge[lay.out_owner(x)].contains(
        (lay.in_owner(t) as usize, w),
    )
}

/// Some edge of `e` is an image of the input edge `u -> v` of weight `w`.
pub open spec fn has_image(lay: Layout, e: Seq<Seq<(usize, i64)>>, u: int, v: int, w: i64) -> bool {
    exists|x: int, p: int|
        #![trigger e[x][p]]
        0 <= x < lay.mid && lay.out_owner(x) == u && 0 <= p < e[x].len() && e[x][p].1 == w && (e[x][p].0 < lay.n
            || lay.mid <= e[x][p].0 < lay.total) && lay.in_owner(e[x][p].0 as int) == v
}

/// The chain edges: member `i` of every out-chain starts with the edge to member
/// `i + 1`, member `i >= 1` of every in-chain holds just the edge to member `i - 1`.
pub open spec fn chain_edges_kept(lay: Layout, e: Seq<Seq<(usize, i64)>>) -> bool {
    &&& forall|u: int, i: int|
        0 <= u < lay.n && 0 <= i < lay.ko(u) ==> #[trigger] e[member(lay.ob, u, i)].len() >= 1
            && e[member(lay.ob, u, i)][0] == (member(lay.ob, u, i + 1) as usize, 0i64)
    &&& forall|v: int, i: int|
        0 <= v < lay.n && 1 <= i <= lay.ki(v) ==> #[trigger] e[member(lay.ib, v, i)] == seq![
            (member(lay.ib, v, i - 1) as usize, 0i64),
        ]
}

/// The placement so far, edge by edge: chain edges kept, every edge a chain edge or
/// an image, and the edges before edge `j` of row `u` placed.
pub open spec fn split_inv(lay: Layout, ge: Seq<Seq<(usize, i64)>>, e: Seq<Seq<(usize, i64)>>, u: int, j: int) -> bool {
    &&& e.len() == lay.total
    &&& chain_edges_kept(lay, e)
    &&& forall|x: int, p: int|
        0 <= x < lay.total && 0 <= p < e[x].len() ==> split_edge(lay, ge, x, (#[trigger] e[x][p]).0 as int, e[x][p].1)
    &&& forall|u2: int, j2: int|
        #![trigger ge[u2][j2]]
        0 <= u2 < lay.n && 0 <= j2 < ge[u2].len() && (u2 < u || (u2 == u && j2 < j)) ==> has_image(
            lay,
            e,
            u2,
            ge[u2][j2].0 as int,
            ge[u2][j2].1,
        )
}

/// `e` splits the graph `ge` along `lay`: the chain edges are there, every edge is a
/// chain edge or an image, and every input edge has an image.
pub open spec fn split_of(lay: Layout, ge: Seq<Seq<(usize, i64)>>, e: Seq<Seq<(usize, i64)>>) -> bool {
    split_inv(lay, ge, e, lay.n, 0)
}

/// The chain graph starts the placement.
#[verifier::spinoff_prover]
pub proof fn lemma_split_init(lay: Layout, ge: Seq<Seq<(usize, i64)>>, e: Seq<Seq<(usize, i64)>>, ind: Seq<usize>)
    requires
        lay.valid(),
        chains_ok(lay, e, ind),
    ensures
        split_inv(lay, ge, e, 0, 0),
{
    let n = lay.n;
    let mid = lay.mid;
    let total = lay.total;
    let ob = lay.ob;
    let ib = lay.ib;
    assert forall|u: int, i: int|
        0 <= u < n && 0 <= i < lay.ko(u) implies #[trigger] e[member(ob, u, i)].len() >= 1 && e[member(ob, u, i)][0]
        == (member(ob, u, i + 1) as usize, 0i64) by {
        assert(e[member(ob, u, i)] == out_chain_row(ob, u, i));
    }
    assert forall|x: int, p: int|
        0 <= x < total && 0 <= p < e[x].len() implies split_edge(lay, ge, x, (#[trigger] e[x][p]).0 as int, e[x][p].1) by {
        if x < mid {
            let i = lemma_out_position(lay, x);
            let u = lay.out_owner(x);
            assert(e[member(ob, u, i)] == out_chain_row(ob, u, i));
            lemma_member_range(ob, lay.oo, n, n, mid, u, i + 1);
        } else {
            let i = lemma_in_position(lay, x);
            let v = lay.in_owner(x);
            assert(e[member(ib, v, i)] == seq![(member(ib, v, i - 1) as usize, 0i64)]);
            lemma_member_range(ib, lay.io, n, mid, total, v, i - 1);
        }
    }
}

/// Placing edge `j` of row `u` as `uu -> vv` keeps the split structure.
#[verifier::spinoff_prover]
pub proof fn lemma_split_step(
    lay: Layout,
    ge: Seq<Seq<(usize, i64)>>,
    e: Seq<Seq<(usize, i64)>>,
    u: int,
    j: int,
    uu: int,
    vv: int,
    e2: Seq<Seq<(usize, i64)>>,
)
    requires
        lay.valid(),
        0 <= u < lay.n,
        0 <= j < ge[u].len(),
        split_inv(lay, ge, e, u, j),
        0 <= uu < lay.mid,
        lay.out_owner(uu) == u,
        0 <= vv < lay.n || lay.mid <= vv < lay.total,
        lay.in_owner(vv) == ge[u][j].0,
        e2 == e.update(uu, e[uu].push((vv as usize, ge[u][j].1))),
    ensures
        split_inv(lay, ge, e2, u, j + 1),
{
    let n = lay.n;
    let mid = lay.mid;
    let total = lay.total;
    let ob = lay.ob;
    let ib = lay.ib;
    let w = ge[u][j].1;
    assert forall|u2: int, i: int|
        0 <= u2 < n && 0 <= i < lay.ko(u2) implies #[trigger] e2[member(ob, u2, i)].len() >= 1 && e2[member(ob, u2, i)][0]
        == (member(ob, u2, i + 1) as usize, 0i64) by {
        assert(e[member(ob, u2, i)].len() >= 1);
        lemma_member_range(ob, lay.oo, n, n, mid, u2, i);
    }
    assert forall|v: int, i: int|
        0 <= v < n && 1 <= i <= lay.ki(v) implies #[trigger] e2[member(ib, v, i)] == seq![
            (member(ib, v, i - 1) as usize, 0i64),
        ] by {
        assert(e[member(ib, v, i)] == seq![(member(ib, v, i - 1) as usize, 0i64)]);
        lemma_member_range(ib, lay.io, n, mid, total, v, i);
    }
    assert forall|x: int, p: int|
        0 <= x < total && 0 <= p < e2[x].len() implies split_edge(lay, ge, x, (#[trigger] e2[x][p]).0 as int, e2[x][p].1) by {
        if x == uu && p == e[uu].len() {
            assert(e2[x][p] == (vv as usize, w));
            assert(ge[u][j] == (lay.in_owner(vv) as usize, w));
            assert(ge[lay.out_owner(x)].contains((lay.in_owner(vv) as usize, w)));
        } else {
            assert(e2[x][p] == e[x][p]);
            assert(split_edge(lay, ge, x, e[x][p].0 as int, e[x][p].1));
        }
    }
    assert forall|u2: int, j2: int|
        #![trigger ge[u2][j2]]
        0 <= u2 < n && 0 <= j2 < ge[u2].len() && (u2 < u || (u2 == u && j2 < j + 1)) implies has_image(
        lay,
        e2,
        u2,
        ge[u2][j2].0 as int,
        ge[u2][j2].1,
    ) by {
        if u2 == u && j2 == j {
            let p = e[uu].len() as int;
            assert(e2[uu][p] == (vv as usize, w));
        } else {
            assert(has_image(lay, e, u2, ge[u2][j2].0 as int, ge[u2][j2].1));
            let (x, p) = choose|x: int, p: int|
                #![trigger e[x][p]]
                0 <= x < mid && lay.out_owner(x) == u2 && 0 <= p < e[x].len() && e[x][p].1 == ge[u2][j2].1 && (e[x][p].0
                    < n || mid <= e[x][p].0 < total) && lay.in_owner(e[x][p].0 as int) == ge[u2][j2].0 as int;
            assert(e2[x][p] == e[x][p]);
        }
    }
}

/// The weighted graph with rows `e` on `0..n` (no flagged negative edges), for walks.
pub open spec fn plain(n: int, e: Seq<Seq<(usize, i64)>>) -> GraphModel {
    GraphModel { n: n as nat, pedges: e, nedges: Seq::new(n as nat, |i: int| Seq::<(usize, i64, bool)>::empty()) }
}

/// Some walk of `g` from `a` ends at `b` with weight `w`.
pub open spec fn walk_between(g: GraphModel, a: int, b: int, w: int) -> bool {
    exists|p: Seq<Step>| #[trigger] g.is_walk(a, p) && g.walk_end(a, p) == b && g.walk_weight(a, p) == w
}

/// Every edge of a split graph stays inside `0..total`.
pub proof fn lemma_split_wf(lay: Layout, ge: Seq<Seq<(usize, i64)>>, e: Seq<Seq<(usize, i64)>>)
    requires
        lay.valid(),
        split_of(lay, ge, e),
    ensures
        plain(lay.total, e).wf(),
{
    let g = plain(lay.total, e);
    assert forall|u: int, j: int| 0 <= u < g.n && 0 <= j < g.pedges[u].len() implies #[trigger] g.pedges[u][j].0 < g.n by {
        assert(split_edge(lay, ge, u, e[u][j].0 as int, e[u][j].1));
    }
}

/// Along the out-chain of `u`, from `u` to member `i`, at weight 0.
proof fn lemma_out_chain_walk(lay: Layout, ge: Seq<Seq<(usize, i64)>>, e: Seq<Seq<(usize, i64)>>, u: int, i: int) -> (q: Seq<Step>)
    requires
        lay.valid(),
        split_of(lay, ge, e),
        0 <= u < lay.n,
        0 <= i <= lay.ko(u),
    ensures
        plain(lay.total, e).is_walk(u, q),
        plain(lay.total, e).walk_end(u, q) == member(lay.ob, u, i),
        plain(lay.total, e).walk_weight(u, q) == 0,
    decreases i,
{
    let g = plain(lay.total, e);
    if i == 0 {
        seq![]
    } else {
        let q0 = lemma_out_chain_walk(lay, ge, e, u, i - 1);
        let x = member(lay.ob, u, i - 1);
        lemma_member_range(lay.ob, lay.oo, lay.n, lay.n, lay.mid, u, i - 1);
        lemma_member_range(lay.ob, lay.oo, lay.n, lay.n, lay.mid, u, i);
        assert(e[x].len() >= 1 && e[x][0] == (member(lay.ob, u, i) as usize, 0i64));
        g.lemma_walk_push(u, q0, (false, 0));
        q0.push((false, 0))
    }
}

/// Along the in-chain of `v`, from member `i` down to `v`, at weight 0.
proof fn lemma_in_chain_walk(lay: Layout, ge: Seq<Seq<(usize, i64)>>, e: Seq<Seq<(usize, i64)>>, v: int, i: int) -> (q: Seq<Step>)
    requires
        lay.valid(),
        split_of(lay, ge, e),
        0 <= v < lay.n,
        0 <= i <= lay.ki(v),
    ensures
        plain(lay.total, e).is_walk(member(lay.ib, v, i), q),
        plain(lay.total, e).walk_end(member(lay.ib, v, i), q) == v,
        plain(lay.total, e).walk_weight(member(lay.ib, v, i), q) == 0,
    decreases i,
{
    let g = plain(lay.total, e);
    let x = member(lay.ib, v, i);
    lemma_member_range(lay.ib, lay.io, lay.n, lay.mid, lay.total, v, i);
    if i == 0 {
        seq![]
    } else {
        lemma_member_range(lay.ib, lay.io, lay.n, lay.mid, lay.total, v, i - 1);
        let q0 = lemma_in_chain_walk(lay, ge, e, v, i - 1);
        assert(e[x] == seq![(member(lay.ib, v, i - 1) as usize, 0i64)]);
        let first: Seq<Step> = seq![(false, 0int)];
        assert(first =~= Seq::<Step>::empty().push((false, 0int)));
        g.lemma_walk_push(x, Seq::<Step>::empty(), (false, 0int));
        g.lemma_walk_concat(x, first, q0);
        first + q0
    }
}

/// A walk of the input graph from `a` has a copy of the same weight and end in
/// the split graph.
pub proof fn lemma_split_walk_forward(lay: Layout, ge: Seq<Seq<(usize, i64)>>, e: Seq<Seq<(usize, i64)>>, a: int, p: Seq<Step>) -> (q: Seq<Step>)
    requires
        lay.valid(),
        split_of(lay, ge, e),
        plain(lay.n, ge).is_walk(a, p),
    ensures
        plain(lay.total, e).is_walk(a, q),
        plain(lay.total, e).walk_end(a, q) == plain(lay.n, ge).walk_end(a, p),
        plain(lay.total, e).walk_weight(a, q) == plain(lay.n, ge).walk_weight(a, p),
    decreases p.len(),
{
    let g1 = plain(lay.n, ge);
    let g2 = plain(lay.total, e);
    if p.len() == 0 {
        seq![]
    } else {
        let p0 = p.drop_last();
        let st = p.last();
        let q0 = lemma_split_walk_forward(lay, ge, e, a, p0);
        let c = g1.walk_end(a, p0);
        assert(!st.0);
        let j = st.1;
        let v = ge[c][j].0 as int;
        let w = ge[c][j].1;
        assert(has_image(lay, e, c, v, w));
        let (x, pi) = choose|x: int, pi: int|
            #![trigger e[x][pi]]
            0 <= x < lay.mid && lay.out_owner(x) == c && 0 <= pi < e[x].len() && e[x][pi].1 == w && (e[x][pi].0
                < lay.n || lay.mid <= e[x][pi].0 < lay.total) && lay.in_owner(e[x][pi].0 as int) == v;
        let t = e[x][pi].0 as int;
        let i1 = lemma_out_position(lay, x);
        let i2 = lemma_in_position(lay, t);
        let q1 = lemma_out_chain_walk(lay, ge, e, c, i1);
        let q2 = lemma_in_chain_walk(lay, ge, e, v, i2);
        g2.lemma_walk_concat(a, q0, q1);
        let r = q0 + q1;
        g2.lemma_walk_push(a, r, (false, pi));
        let r2 = r.push((false, pi));
        g2.lemma_walk_concat(a, r2, q2);
        r2 + q2
    }
}

/// A walk of the split graph from an input vertex `a` projects onto a walk of
/// the input graph of the same weight, ending at the owner of its last vertex.
pub proof fn lemma_split_walk_back(lay: Layout, ge: Seq<Seq<(usize, i64)>>, e: Seq<Seq<(usize, i64)>>, a: int, q: Seq<Step>) -> (p: Seq<Step>)
    requires
        lay.valid(),
        split_of(lay, ge, e),
        0 <= a < lay.n,
        plain(lay.total, e).is_walk(a, q),
    ensures
        plain(lay.n, ge).is_walk(a, p),
        plain(lay.n, ge).walk_weight(a, p) == plain(lay.total, e).walk_weight(a, q),
        plain(lay.total, e).walk_end(a, q) < lay.mid ==> plain(lay.n, ge).walk_end(a, p) == lay.out_owner(
            plain(lay.total, e).walk_end(a, q),
        ),
        plain(lay.total, e).walk_end(a, q) >= lay.mid ==> plain(lay.n, ge).walk_end(a, p) == lay.in_owner(
            plain(lay.total, e).walk_end(a, q),
        ),
    decreases q.len(),
{
    let g1 = plain(lay.n, ge);
    let g2 = plain(lay.total, e);
    lemma_split_wf(lay, ge, e);
    if q.len() == 0 {
        seq![]
    } else {
        let q0 = q.drop_last();
        let st = q.last();
        let p0 = lemma_split_walk_back(lay, ge, e, a, q0);
        let y = g2.walk_end(a, q0);
        g2.lemma_walk_end_in_range(a, q0);
        assert(!st.0);
        let k = st.1;
        let t = e[y][k].0 as int;
        let w = e[y][k].1;
        assert(split_edge(lay, ge, y, t, w));
        if y < lay.mid && !(lay.n <= t < lay.mid && w == 0 && lay.out_owner(t) == lay.out_owner(y)) {
            let c = lay.out_owner(y);
            let vv = lay.in_owner(t);
            assert(ge[c].contains((vv as usize, w)));
            let j = choose|j: int| 0 <= j < ge[c].len() && ge[c][j] == (vv as usize, w);
            assert(0 <= c < lay.n) by {
                if y >= lay.n {
                    lemma_aux_member(lay.ob, lay.oo, lay.n, lay.n, lay.mid, y);
                }
            }
            assert(0 <= vv < lay.n) by {
                if t >= lay.n {
                    lemma_aux_member(lay.ib, lay.io, lay.n, lay.mid, lay.total, t);
                }
            }
            g1.lemma_walk_push(a, p0, (false, j));
            p0.push((false, j))
        } else {
            p0
        }
    }
}

/// The split keeps the walks between input vertices: `a` reaches `b` by a walk
/// of weight `w` in the input graph exactly when it does so in the split graph.
/// So every distance between input vertices is kept.
pub proof fn lemma_split_keeps_walks(lay: Layout, ge: Seq<Seq<(usize, i64)>>, e: Seq<Seq<(usize, i64)>>, a: int, b: int, w: int)
    requires
        lay.valid(),
        split_of(lay, ge, e),
        0 <= a < lay.n,
        0 <= b < lay.n,
    ensures
        walk_between(plain(lay.n, ge), a, b, w) <==> walk_between(plain(lay.total, e), a, b, w),
{
    let g1 = plain(lay.n, ge);
    let g2 = plain(lay.total, e);
    if walk_between(g1, a, b, w) {
        let p = choose|p: Seq<Step>| #[trigger] g1.is_walk(a, p) && g1.walk_end(a, p) == b && g1.walk_weight(a, p) == w;
        let q = lemma_split_walk_forward(lay, ge, e, a, p);
        assert(g2.is_walk(a, q));
    }
    if walk_between(g2, a, b, w) {
        let q = choose|q: Seq<Step>| #[trigger] g2.is_walk(a, q) && g2.walk_end(a, q) == b && g2.walk_weight(a, q) == w;
        let p = lemma_split_walk_back(lay, ge, e, a, q);
        assert(g1.is_walk(a, p));
    }
}

/// The first edge, in row order, that member `i` of a chain with `k` auxiliaries
/// takes: the last member `k` takes the first `d` edges, member `k - 1` the next
/// `d - 1`, and so on down the chain.
pub open spec fn slot_lo(k: int, d: int, i: int) -> int {
    if i >= k {
        0
    } else {
        room(d, k - 1 - i)
    }
}

/// The end of the edges member `i` takes; member `0` takes all the rest of `len`.
pub open spec fn slot_hi(k: int, d: int, len: int, i: int) -> int {
    if i == 0 {
        len
    } else {
        room(d, k - i)
    }
}

/// The member of a chain with `k` auxiliaries that takes edge `r`.
pub open spec fn slot(k: int, d: int, r: int) -> int {
    if r < d {
        k
    } else {
        let s = k - 1 - (r - d) / (d - 1);
        if s < 0 {
            0
        } else {
            s
        }
    }
}

/// `room` grows with the number of auxiliaries.
pub proof fn lemma_room_mono(d: int, a: int, b: int)
    requires
        d >= 2,
        0 <= a <= b,
    ensures
        d <= room(d, a) <= room(d, b),
        room(d, b) - room(d, a) == (b - a) * (d - 1),
{
    reveal(room);
    assert(a * (d - 1) <= b * (d - 1)) by (nonlinear_arith)
        requires
            a <= b,
            d >= 2,
    ;
    assert(0 <= a * (d - 1)) by (nonlinear_arith)
        requires
            0 <= a,
            d >= 2,
    ;
    assert(b * (d - 1) - a * (d - 1) == (b - a) * (d - 1)) by (nonlinear_arith);
}

/// Edge `r` falls in the range of member `i` exactly when `slot` names `i`.
pub proof fn lemma_slot(k: int, d: int, len: int, r: int, i: int)
    requires
        d >= 2,
        0 <= i <= k,
        slot_lo(k, d, i) <= r,
        i == 0 || r < slot_hi(k, d, len, i),
    ensures
        slot(k, d, r) == i,
{
    reveal(room);
    if i == k {
        if k >= 1 {
            assert(slot_hi(k, d, len, i) == room(d, 0));
            assert(0 * (d - 1) == 0) by (nonlinear_arith);
            assert(room(d, 0) == d);
            assert(r < d);
        } else if r >= d {
            let q = (r - d) / (d - 1);
            assert(q >= 0) by {
                vstd::arithmetic::div_mod::lemma_div_pos_is_pos(r - d, d - 1);
            }
        }
    } else {
        let q = (r - d) / (d - 1);
        let m = (r - d) % (d - 1);
        vstd::arithmetic::div_mod::lemma_fundamental_div_mod(r - d, d - 1);
        assert(r - d == (d - 1) * q + m);
        assert(0 <= m < d - 1);
        assert(r - d >= (k - 1 - i) * (d - 1));
        assert(q >= k - 1 - i) by (nonlinear_arith)
            requires
                r - d == (d - 1) * q + m,
                m < d - 1,
                r - d >= (k - 1 - i) * (d - 1),
                d >= 2,
        ;
        if i >= 1 {
            assert(r - d < (k - i) * (d - 1));
            assert(q <= k - 1 - i) by (nonlinear_arith)
                requires
                    r - d == (d - 1) * q + m,
                    m >= 0,
                    r - d < (k - i) * (d - 1),
                    d >= 2,
            ;
        }
        assert(r >= d) by {
            assert((k - 1 - i) * (d - 1) >= 0) by (nonlinear_arith)
                requires
                    k - 1 - i >= 0,
                    d >= 2,
            ;
        }
    }
}

/// The open member of a chain's fill state takes the next edge: edge `r` lies in
/// its range.
pub proof fn lemma_list_range(deg: Seq<usize>, base: Seq<int>, u: int, k: int, len: int, d: int, r: int, total: int)
    requires
        list_state(deg, base, u, k, len, d, r),
        deg[member(base, u, len - 1)] < d,
        d >= 2,
        r < total,
    ensures
        slot_lo(k, d, len - 1) <= r,
        len - 1 == 0 || r < slot_hi(k, d, total, len - 1),
{
    reveal(room);
    let c = len - 1;
    if c < k {
        assert(cap_above(c, k, d) == room(d, k - 1 - c));
        assert((k - c - 1) * (d - 1) + (d - 1) == (k - c) * (d - 1)) by (nonlinear_arith);
    }
}

/// The image of edge `j` of `u`, to `v`: it enters the member of the in-chain of
/// `v` that takes the edges into `v` placed before it.
pub open spec fn image_of(lay: Layout, ge: Seq<Seq<(usize, i64)>>, d: int, u: int, j: int) -> (usize, i64) {
    let v = ge[u][j].0 as int;
    (member(lay.ib, v, slot(lay.ki(v), d, placed_into(ge, u, j, v))) as usize, ge[u][j].1)
}

/// The images of the edges `lo..hi` of `u`.
pub open spec fn images(lay: Layout, ge: Seq<Seq<(usize, i64)>>, d: int, u: int, lo: int, hi: int) -> Seq<(usize, i64)> {
    Seq::new(
        if hi > lo {
            (hi - lo) as nat
        } else {
            0
        },
        |t: int| image_of(lay, ge, d, u, lo + t),
    )
}

/// The row of member `i` of the out-chain of `u` once the first `upto` edges of
/// `u` are placed: its chain edge, then the images of the edges in its range.
pub open spec fn placed_row(lay: Layout, ge: Seq<Seq<(usize, i64)>>, d: int, u: int, i: int, upto: int) -> Seq<(usize, i64)> {
    let hi = slot_hi(lay.ko(u), d, ge[u].len() as int, i);
    out_chain_row(lay.ob, u, i) + images(lay, ge, d, u, slot_lo(lay.ko(u), d, i), if hi < upto { hi } else { upto })
}

/// Every out-side row of `e` is its chain edge followed by the images, in row
/// order, of the edges in its range: the greedy placement of all edges of `ge`.
pub open spec fn greedy_of(lay: Layout, ge: Seq<Seq<(usize, i64)>>, d: int, e: Seq<Seq<(usize, i64)>>) -> bool {
    greedy_inv(lay, ge, d, e, lay.n, 0)
}

/// The out-side rows after the first `j` edges of row `u` are placed.
pub open spec fn greedy_inv(lay: Layout, ge: Seq<Seq<(usize, i64)>>, d: int, e: Seq<Seq<(usize, i64)>>, u: int, j: int) -> bool {
    forall|u2: int, i: int|
        0 <= u2 < lay.n && 0 <= i <= lay.ko(u2) ==> #[trigger] e[member(lay.ob, u2, i)] == placed_row(
            lay,
            ge,
            d,
            u2,
            i,
            if u2 < u {
                ge[u2].len() as int
            } else if u2 == u {
                j
            } else {
                0
            },
        )
}

/// The chain graph starts the greedy placement.
#[verifier::spinoff_prover]
pub proof fn lemma_greedy_init(lay: Layout, ge: Seq<Seq<(usize, i64)>>, d: int, e: Seq<Seq<(usize, i64)>>, ind: Seq<usize>)
    requires
        lay.valid(),
        d >= 2,
        chains_ok(lay, e, ind),
    ensures
        greedy_inv(lay, ge, d, e, 0, 0),
{
    assert forall|u2: int, i: int| 0 <= u2 < lay.n && 0 <= i <= lay.ko(u2) implies #[trigger] e[member(lay.ob, u2, i)]
        == placed_row(lay, ge, d, u2, i, if u2 < 0 { ge[u2].len() as int } else if u2 == 0 { 0 } else { 0 }) by {
        let k = lay.ko(u2);
        if i < k {
            lemma_room_mono(d, 0, k - 1 - i);
        }
        assert(slot_lo(k, d, i) >= 0);
        assert(images(lay, ge, d, u2, slot_lo(k, d, i), if slot_hi(k, d, ge[u2].len() as int, i) < 0 {
            slot_hi(k, d, ge[u2].len() as int, i)
        } else {
            0
        }).len() == 0);
        assert(e[member(lay.ob, u2, i)] == out_chain_row(lay.ob, u2, i));
        assert(placed_row(lay, ge, d, u2, i, 0) =~= out_chain_row(lay.ob, u2, i));
    }
}

/// Moving on to row `u + 1` keeps the greedy placement.
pub proof fn lemma_greedy_next_row(lay: Layout, ge: Seq<Seq<(usize, i64)>>, d: int, e: Seq<Seq<(usize, i64)>>, u: int)
    requires
        0 <= u < lay.n,
        greedy_inv(lay, ge, d, e, u, ge[u].len() as int),
    ensures
        greedy_inv(lay, ge, d, e, u + 1, 0),
{
    assert forall|u2: int, i: int| 0 <= u2 < lay.n && 0 <= i <= lay.ko(u2) implies #[trigger] e[member(lay.ob, u2, i)]
        == placed_row(lay, ge, d, u2, i, if u2 < u + 1 { ge[u2].len() as int } else if u2 == u + 1 { 0 } else { 0 }) by {
        assert(e[member(lay.ob, u2, i)] == placed_row(lay, ge, d, u2, i, if u2 < u {
            ge[u2].len() as int
        } else if u2 == u {
            ge[u].len() as int
        } else {
            0
        }));
    }
}

/// Placing edge `j` of row `u` as `uu -> vv` keeps the greedy placement: `uu` and
/// `vv` are the members whose ranges hold the edge.
#[verifier::spinoff_prover]
pub proof fn lemma_greedy_step(
    lay: Layout,
    ge: Seq<Seq<(usize, i64)>>,
    d: int,
    e: Seq<Seq<(usize, i64)>>,
    outd: Seq<usize>,
    ind: Seq<usize>,
    olen: Seq<usize>,
    ilen: Seq<usize>,
    u: int,
    j: int,
    v: int,
    uu: int,
    vv: int,
    e2: Seq<Seq<(usize, i64)>>,
)
    requires
        lay.valid(),
        0 <= u < lay.n,
        ge.len() == lay.n,
        0 <= j < ge[u].len(),
        v == ge[u][j].0,
        0 <= v < lay.n,
        2 <= d,
        assign_inv(lay, ge, d, e, outd, ind, olen, ilen, u, j),
        greedy_inv(lay, ge, d, e, u, j),
        uu == member(lay.ob, u, olen[u] - 1),
        vv == member(lay.ib, v, ilen[v] - 1),
        outd[uu] < d,
        ind[vv] < d,
        e2 == e.update(uu, e[uu].push((vv as usize, ge[u][j].1))),
    ensures
        greedy_inv(lay, ge, d, e2, u, j + 1),
{
    let ob = lay.ob;
    let k = lay.ko(u);
    let c = olen[u] - 1;
    let len = ge[u].len() as int;
    let r = placed_into(ge, u, j, v);
    assert(list_state(outd, ob, u, k, olen[u] as int, d, j));
    lemma_list_range(outd, ob, u, k, olen[u] as int, d, j, len);
    assert(list_state(ind, lay.ib, v, lay.ki(v), ilen[v] as int, d, r));
    lemma_placed_lt(ge, u, j);
    lemma_list_range(ind, lay.ib, v, lay.ki(v), ilen[v] as int, d, r, in_degree(ge, v) as int);
    lemma_slot(lay.ki(v), d, in_degree(ge, v) as int, r, ilen[v] - 1);
    assert(image_of(lay, ge, d, u, j) == (vv as usize, ge[u][j].1));
    lemma_member_range(ob, lay.oo, lay.n, lay.n, lay.mid, u, c);
    assert forall|u2: int, i: int| 0 <= u2 < lay.n && 0 <= i <= lay.ko(u2) implies #[trigger] e2[member(ob, u2, i)]
        == placed_row(lay, ge, d, u2, i, if u2 < u { ge[u2].len() as int } else if u2 == u { j + 1 } else { 0 }) by {
        let upto_old = if u2 < u {
            ge[u2].len() as int
        } else if u2 == u {
            j
        } else {
            0
        };
        assert(e[member(ob, u2, i)] == placed_row(lay, ge, d, u2, i, upto_old));
        lemma_member_range(ob, lay.oo, lay.n, lay.n, lay.mid, u2, i);
        if member(ob, u2, i) == uu {
            lemma_member_inj(ob, lay.oo, lay.n, lay.n, lay.mid, u2, i, u, c);
            let lo = slot_lo(k, d, c);
            let hi = slot_hi(k, d, len, c);
            let a = images(lay, ge, d, u, lo, if hi < j { hi } else { j });
            let b = images(lay, ge, d, u, lo, if hi < j + 1 { hi } else { j + 1 });
            assert(b =~= a.push(image_of(lay, ge, d, u, j)));
            assert(e2[uu] =~= placed_row(lay, ge, d, u, c, j + 1));
        } else if u2 == u {
            let lo = slot_lo(k, d, i);
            let hi = slot_hi(k, d, len, i);
            if i > c {
                lemma_room_mono(d, k - i, k - 1 - c);
                assert(hi <= j);
            } else {
                assert(i < c);
                lemma_room_mono(d, k - c, k - 1 - i);
                assert(lo >= j + 1);
            }
            assert(images(lay, ge, d, u, lo, if hi < j { hi } else { j }) =~= images(lay, ge, d, u, lo, if hi < j + 1 {
                hi
            } else {
                j + 1
            }));
        }
    }
}

} // verus!
