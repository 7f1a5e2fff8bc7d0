use vstd::prelude::*;
use crate::graph::Graph;
use crate::graph::PlanError;
use crate::paths::connects;
use crate::paths::pair_connected;
use crate::paths::lemma_path_single;
use crate::paths::lemma_path_push;
use crate::paths::lemma_path_prefix;
use crate::paths::lemma_path_concat;
use crate::paths::lemma_path_reverse;

verus! {

/// Some walk from `a` to `b` has exactly `dval` edges.
pub open spec fn dist_achieved(g: &Graph, a: int, b: int, dval: int) -> bool {
    exists|p: Seq<int>| connects(g, p, a, b) && p.len() - 1 == dval
}

/// No walk from `a` to `b` has fewer than `dval` edges.
pub open spec fn dist_minimal(g: &Graph, a: int, b: int, dval: int) -> bool {
    forall|p: Seq<int>| connects(g, p, a, b) ==> p.len() - 1 >= dval
}

/// `dval` is the shortest-path distance from `a` to `b`.
pub open spec fn dist_is(g: &Graph, a: int, b: int, dval: int) -> bool {
    dist_achieved(g, a, b, dval) && dist_minimal(g, a, b, dval)
}

/// The shortest-path distance from `a` to `b`, where one exists.
pub open spec fn spec_dist(g: &Graph, a: int, b: int) -> int {
    choose|dval: int| dist_is(g, a, b, dval)
}

/// The shortest-path distance is unique, so `spec_dist` returns it.
pub proof fn lemma_dist_unique(g: &Graph, a: int, b: int, dval: int)
    requires
        dist_is(g, a, b, dval),
    ensures
        spec_dist(g, a, b) == dval,
{
    let d2 = spec_dist(g, a, b);
    assert(dist_is(g, a, b, d2));
    let p1 = choose|p: Seq<int>| connects(g, p, a, b) && p.len() - 1 == dval;
    let p2 = choose|p: Seq<int>| connects(g, p, a, b) && p.len() - 1 == d2;
    assert(p1.len() - 1 >= d2 && p2.len() - 1 >= dval);
}

/// How many of the first `i` entries are set.
pub open spec fn count_true(s: Seq<bool>, i: int) -> int
    decreases i,
{
    if i <= 0 {
        0
    } else {
        count_true(s, i - 1) + if s[i - 1] {
            1int
        } else {
            0
        }
    }
}

proof fn lemma_count_le(s: Seq<bool>, i: int)
    requires
        0 <= i,
    ensures
        0 <= count_true(s, i) <= i,
    decreases i,
{
    if i > 0 {
        lemma_count_le(s, i - 1);
    }
}

/// Fewer set entries than positions leaves an unset position.
proof fn lemma_count_missing(s: Seq<bool>, i: int) -> (j: int)
    requires
        0 <= i,
        count_true(s, i) < i,
    ensures
        0 <= j < i && !s[j],
    decreases i,
{
    lemma_count_le(s, i - 1);
    if s[i - 1] {
        lemma_count_missing(s, i - 1)
    } else {
        i - 1
    }
}

/// Setting an unset entry raises the count by one.
proof fn lemma_count_update(s: Seq<bool>, j: int, i: int)
    requires
        0 <= j < s.len(),
        !s[j],
        0 <= i <= s.len(),
    ensures
        count_true(s.update(j, true), i) == count_true(s, i) + if j < i {
            1int
        } else {
            0
        },
    decreases i,
{
    if i > 0 {
        lemma_count_update(s, j, i - 1);
    }
}

/// When every position is counted, every entry is set.
proof fn lemma_count_full(s: Seq<bool>, i: int)
    requires
        0 <= i,
        count_true(s, i) == i,
    ensures
        forall|v: int| 0 <= v < i ==> s[v],
    decreases i,
{
    if i > 0 {
        lemma_count_le(s, i - 1);
        lemma_count_full(s, i - 1);
    }
}

/// The first entry of the walk not yet settled.
proof fn lemma_first_unsettled(s: Seq<bool>, p: Seq<int>, n: int) -> (j: int)
    requires
        p.len() >= 1,
        s.len() == n,
        forall|i: int| 0 <= i < p.len() ==> 0 <= #[trigger] p[i] < n,
        !s[p.last()],
    ensures
        0 <= j < p.len(),
        !s[p[j]],
        forall|i: int| 0 <= i < j ==> s[#[trigger] p[i]],
    decreases p.len(),
{
    if !s[p[0]] {
        0
    } else {
        let q = p.drop_first();
        assert(q.last() == p.last());
        assert(forall|i: int| 0 <= i < q.len() ==> #[trigger] q[i] == p[i + 1]);
        let j1 = lemma_first_unsettled(s, q, n);
        assert forall|i: int| 0 <= i < j1 + 1 implies s[#[trigger] p[i]] by {
            if i > 0 {
                assert(q[i - 1] == p[i]);
            }
        }
        j1 + 1
    }
}

/// Single-source shortest distances by repeated minimum selection and unit
/// relaxation. Entry `v` holds the least number of edges on a walk from `src`
/// to `v`, or `u64::MAX` when no walk exists.
fn dijkstra(g: &Graph, src: usize) -> (d: Vec<u64>)
    requires
        g.wf(),
        (src as int) < g.n(),
        g.n() < u64::MAX,
    ensures
        d@.len() == g.n(),
        forall|v: int|
            0 <= v < g.n() && (#[trigger] d@[v]) != u64::MAX ==> dist_achieved(
                g,
                src as int,
                v,
                d@[v] as int,
            ) && d@[v] as int <= g.n(),
        forall|v: int, p: Seq<int>|
            0 <= v < g.n() && #[trigger] connects(g, p, src as int, v) ==> d@[v] != u64::MAX
                && d@[v] as int <= p.len() - 1,
{
    let n = g.rates.len();
    let mut d: Vec<u64> = Vec::new();
    let mut settled: Vec<bool> = Vec::new();
    for v in 0..n
        invariant
            d@.len() == v,
            settled@.len() == v,
            n == g.n(),
            forall|w: int| 0 <= w < v ==> !(#[trigger] settled@[w]),
            forall|w: int| 0 <= w < v ==> (#[trigger] d@[w]) == if w == src as int {
                0u64
            } else {
                u64::MAX
            },
    {
        if v == src {
            d.push(0);
        } else {
            d.push(u64::MAX);
        }
        settled.push(false);
    }
    proof {
        lemma_count_zero(settled@, n as int);
        lemma_path_single(g, src as int);
    }
    let mut round: usize = 0;
    while round < n
        invariant
            g.wf(),
            (src as int) < g.n(),
            g.n() < u64::MAX,
            n == g.n(),
            d@.len() == n,
            settled@.len() == n,
            round <= n,
            count_true(settled@, n as int) == round as int,
            d@[src as int] == 0u64,
            forall|v: int|
                0 <= v < n && (#[trigger] d@[v]) != u64::MAX ==> dist_achieved(
                    g,
                    src as int,
                    v,
                    d@[v] as int,
                ) && d@[v] as int <= round as int,
            forall|v: int, p: Seq<int>|
                0 <= v < n && settled@[v] && #[trigger] connects(g, p, src as int, v) ==> d@[v]
                    != u64::MAX && d@[v] as int <= p.len() - 1,
            forall|u: int, jj: int|
                0 <= u < n && settled@[u] && 0 <= jj < g.adj_of(u).len()
                    ==> #[trigger] d@[g.adj_of(u)[jj] as int] as int <= d@[u] as int + 1,
        decreases n - round,
    {
        // select the unsettled node with the least tentative distance,
        // lowest index first
        let ghost j0 = lemma_count_missing(settled@, n as int);
        let mut m: usize = 0;
        let mut found = false;
        for v in 0..n
            invariant
                n == settled@.len(),
                n == d@.len(),
                found ==> m < n && !settled@[m as int],
                found ==> forall|w: int|
                    0 <= w < v && !settled@[w] ==> d@[w] >= d@[m as int],
                !found ==> forall|w: int| 0 <= w < v ==> (#[trigger] settled@[w]),
        {
            if !settled[v] {
                if !found || d[v] < d[m] {
                    m = v;
                    found = true;
                }
            }
        }
        proof {
            assert(!settled@[j0]);
        }
        assert(found);
        // every walk that reaches `m` is at least as long as its tentative
        // distance: it crosses from the settled region, where distances are
        // exact, and the crossing edge was relaxed
        proof {
            assert forall|p: Seq<int>| #[trigger] connects(g, p, src as int, m as int) implies d@[m as int]
                != u64::MAX && d@[m as int] as int <= p.len() - 1 by {
                let j = lemma_first_unsettled(settled@, p, n as int);
                if j == 0 {
                    assert(p[0] == src as int);
                    assert(d@[m as int] <= d@[src as int]);
                } else {
                    let u = p[j - 1];
                    let w = p[j];
                    assert(settled@[u] && !settled@[w]);
                    assert(g.edge(p[j - 1], p[j]));
                    lemma_path_prefix(g, p, src as int, p.last(), j);
                    assert(connects(g, p.subrange(0, j), src as int, u));
                    assert(d@[u] != u64::MAX && d@[u] as int <= j - 1);
                    assert(d@[u] as int <= round as int);
                    let jj = choose|jj: int|
                        0 <= jj < g.adj_of(u).len() && (#[trigger] g.adj_of(u)[jj]) as int == w;
                    assert(d@[w] as int <= d@[u] as int + 1);
                    assert(d@[m as int] <= d@[w]);
                }
            }
        }
        let ghost spre = settled@;
        settled[m] = true;
        proof {
            lemma_count_update(spre, m as int, n as int);
            assert(settled@ =~= spre.update(m as int, true));
        }
        let dm = d[m];
        if dm != u64::MAX {
            let alen = g.adj[m].len();
            let ghost settled_snap = settled@;
            for j in 0..alen
                invariant
                    g.wf(),
                    (src as int) < g.n(),
                    g.n() < u64::MAX,
                    n == g.n(),
                    d@.len() == n,
                    settled@ == settled_snap,
                    settled@.len() == n,
                    round < n,
                    count_true(settled@, n as int) == round as int + 1,
                    (m as int) < n,
                    settled@[m as int],
                    alen == g.adj_of(m as int).len(),
                    d@[m as int] == dm,
                    dm != u64::MAX,
                    dm as int <= round as int,
                    d@[src as int] == 0u64,
                    forall|v: int|
                        0 <= v < n && (#[trigger] d@[v]) != u64::MAX ==> dist_achieved(
                            g,
                            src as int,
                            v,
                            d@[v] as int,
                        ) && d@[v] as int <= round as int + 1,
                    forall|v: int, p: Seq<int>|
                        0 <= v < n && settled@[v] && #[trigger] connects(g, p, src as int, v)
                            ==> d@[v] != u64::MAX && d@[v] as int <= p.len() - 1,
                    forall|u: int, jj: int|
                        0 <= u < n && settled@[u] && 0 <= jj < g.adj_of(u).len() && (u != m as int
                            || jj < j) ==> #[trigger] d@[g.adj_of(u)[jj] as int] as int <= d@[u] as int
                            + 1,
            {
                let w = g.adj[m][j];
                if dm + 1 < d[w] {
                    proof {
                        // a settled node's distance is already exact, so it
                        // cannot shrink: the update target is unsettled
                        if settled@[w as int] {
                            let pm = choose|p: Seq<int>|
                                connects(g, p, src as int, m as int) && p.len() - 1
                                    == d@[m as int] as int;
                            lemma_path_push(g, pm, src as int, m as int, w as int);
                            assert(connects(g, pm.push(w as int), src as int, w as int));
                            assert(false);
                        }
                    }
                    let ghost dpre = d@;
                    d[w] = dm + 1;
                    proof {
                        let pm = choose|p: Seq<int>|
                            connects(g, p, src as int, m as int) && p.len() - 1
                                == dpre[m as int] as int;
                        lemma_path_push(g, pm, src as int, m as int, w as int);
                        assert(connects(g, pm.push(w as int), src as int, w as int) && pm.push(
                            w as int,
                        ).len() - 1 == d@[w as int] as int);
                    }
                }
            }
        }
        round = round + 1;
    }
    proof {
        lemma_count_full(settled@, n as int);
    }
    d
}

/// An empty settled vector counts zero.
proof fn lemma_count_zero(s: Seq<bool>, i: int)
    requires
        0 <= i <= s.len(),
        forall|w: int| 0 <= w < s.len() ==> !(#[trigger] s[w]),
    ensures
        count_true(s, i) == 0,
    decreases i,
{
    if i > 0 {
        lemma_count_zero(s, i - 1);
    }
}

/// The least number of unit-cost edges on a walk from `start` to `end`, or
/// `None` when no walk connects them.
pub fn get_shortest_path(g: &Graph, start: usize, end: usize) -> (r: Option<u64>)
    requires
        g.wf(),
        (start as int) < g.n(),
        (end as int) < g.n(),
        g.n() < u64::MAX,
    ensures
        r matches Some(dv) ==> dist_is(g, start as int, end as int, dv as int) && dv as int
            <= g.n(),
        r is None ==> !pair_connected(g, start as int, end as int),
{
    let d = dijkstra(g, start);
    let dv = d[end];
    if dv == u64::MAX {
        proof {
            if pair_connected(g, start as int, end as int) {
                let p = choose|p: Seq<int>| connects(g, p, start as int, end as int);
                assert(d@[end as int] != u64::MAX);
            }
        }
        None
    } else {
        Some(dv)
    }
}

/// The interesting nodes: the start node, then every reward-bearing node in
/// ascending order.
pub open spec fn interesting_seq(g: &Graph, start: usize) -> Seq<usize> {
    seq![start] + g.reward_seq()
}

/// Every pair of interesting nodes has a connecting path.
pub open spec fn interesting_connected(g: &Graph, start: usize) -> bool {
    forall|i: int, j: int|
        0 <= i < interesting_seq(g, start).len() && 0 <= j < interesting_seq(g, start).len()
            ==> #[trigger] pair_connected(
            g,
            interesting_seq(g, start)[i] as int,
            interesting_seq(g, start)[j] as int,
        )
}

/// The Metric Closure: shortest-path distances between all interesting
/// nodes, computed once and immutable afterward.
pub struct MetricClosure {
    /// The interesting nodes, start node first.
    pub interesting: Vec<usize>,
    /// `dist[i][j]` is the shortest-path distance from `interesting[i]` to
    /// `interesting[j]`.
    pub dist: Vec<Vec<u64>>,
}

impl MetricClosure {
    /// The table covers exactly the interesting pairs, and each entry is the
    /// shortest-path distance of its pair.
    pub open spec fn wf(&self, g: &Graph, start: usize) -> bool {
        &&& self.interesting@ == interesting_seq(g, start)
        &&& self.dist@.len() == self.interesting@.len()
        &&& forall|i: int|
            0 <= i < self.dist@.len() ==> (#[trigger] self.dist@[i])@.len()
                == self.interesting@.len()
        &&& forall|i: int, j: int|
            0 <= i < self.interesting@.len() && 0 <= j < self.interesting@.len() ==> dist_is(
                g,
                self.interesting@[i] as int,
                self.interesting@[j] as int,
                (#[trigger] self.dist@[i]@[j]) as int,
            ) && self.dist@[i]@[j] as int <= g.n()
    }

    /// Runs one single-source computation per interesting node and keeps the
    /// distances between interesting pairs. Fails when two interesting nodes
    /// have no connecting path.
    pub fn build(g: &Graph, start: usize, rn: &Vec<usize>) -> (r: Result<MetricClosure, PlanError>)
        requires
            g.wf(),
            (start as int) < g.n(),
            g.n() < u64::MAX,
            rn@ == g.reward_seq(),
        ensures
            r matches Ok(mc) ==> mc.wf(g, start),
            r matches Err(e) ==> e == PlanError::DisconnectedGraph && exists|i: int, j: int|
                #![trigger interesting_seq(g, start)[i], interesting_seq(g, start)[j]]
                0 <= i < interesting_seq(g, start).len() && 0 <= j < interesting_seq(
                    g,
                    start,
                ).len() && !pair_connected(
                    g,
                    interesting_seq(g, start)[i] as int,
                    interesting_seq(g, start)[j] as int,
                ),
    {
        proof {
            crate::graph::lemma_reward_prefix(g, g.n());
        }
        let mut inter: Vec<usize> = Vec::new();
        inter.push(start);
        let kk = rn.len();
        for q in 0..kk
            invariant
                kk == rn@.len(),
                rn@ == g.reward_seq(),
                inter@ == seq![start] + rn@.subrange(0, q as int),
        {
            inter.push(rn[q]);
            proof {
                assert(inter@ =~= seq![start] + rn@.subrange(0, q as int + 1));
            }
        }
        proof {
            assert(inter@ =~= interesting_seq(g, start));
        }
        let m = inter.len();
        let mut table: Vec<Vec<u64>> = Vec::new();
        for i in 0..m
            invariant
                g.wf(),
                (start as int) < g.n(),
                g.n() < u64::MAX,
                m == inter@.len(),
                inter@ == interesting_seq(g, start),
                forall|q: int| 0 <= q < m ==> ((#[trigger] inter@[q]) as int) < g.n(),
                table@.len() == i,
                forall|a: int| 0 <= a < i ==> (#[trigger] table@[a])@.len() == m,
                forall|a: int, b: int|
                    0 <= a < i && 0 <= b < m ==> dist_is(
                        g,
                        inter@[a] as int,
                        inter@[b] as int,
                        (#[trigger] table@[a]@[b]) as int,
                    ) && table@[a]@[b] as int <= g.n(),
        {
            let dv = dijkstra(g, inter[i]);
            let mut row: Vec<u64> = Vec::new();
            for j in 0..m
                invariant
                    g.wf(),
                    g.n() < u64::MAX,
                    m == inter@.len(),
                    inter@ == interesting_seq(g, start),
                    forall|q: int| 0 <= q < m ==> ((#[trigger] inter@[q]) as int) < g.n(),
                    i < m,
                    dv@.len() == g.n(),
                    forall|v: int|
                        0 <= v < g.n() && (#[trigger] dv@[v]) != u64::MAX ==> dist_achieved(
                            g,
                            inter@[i as int] as int,
                            v,
                            dv@[v] as int,
                        ) && dv@[v] as int <= g.n(),
                    forall|v: int, p: Seq<int>|
                        0 <= v < g.n() && #[trigger] connects(g, p, inter@[i as int] as int, v)
                            ==> dv@[v] != u64::MAX && dv@[v] as int <= p.len() - 1,
                    row@.len() == j,
                    forall|b: int|
                        0 <= b < j ==> dist_is(
                            g,
                            inter@[i as int] as int,
                            inter@[b] as int,
                            (#[trigger] row@[b]) as int,
                        ) && row@[b] as int <= g.n(),
            {
                let dj = dv[inter[j]];
                if dj == u64::MAX {
                    proof {
                        if pair_connected(g, inter@[i as int] as int, inter@[j as int] as int) {
                            let p = choose|p: Seq<int>|
                                connects(g, p, inter@[i as int] as int, inter@[j as int] as int);
                            assert(dv@[inter@[j as int] as int] != u64::MAX);
                        }
                    }
                    return Err(PlanError::DisconnectedGraph);
                }
                row.push(dj);
            }
            table.push(row);
        }
        Ok(MetricClosure { interesting: inter, dist: table })
    }
}

/// Metric-closure distances are symmetric when the graph's adjacency lists
/// are: the reverse of a shortest walk is a walk of the same length.
pub proof fn lemma_closure_symmetric(g: &Graph, start: usize, mc: &MetricClosure, i: int, j: int)
    requires
        mc.wf(g, start),
        g.undirected(),
        0 <= i < mc.interesting@.len(),
        0 <= j < mc.interesting@.len(),
    ensures
        mc.dist@[i]@[j] == mc.dist@[j]@[i],
{
    let a = mc.interesting@[i] as int;
    let b = mc.interesting@[j] as int;
    let dij = mc.dist@[i]@[j] as int;
    let dji = mc.dist@[j]@[i] as int;
    let p1 = choose|p: Seq<int>| connects(g, p, a, b) && p.len() - 1 == dij;
    lemma_path_reverse(g, p1, a, b);
    assert(p1.reverse().len() - 1 >= dji);
    let p2 = choose|p: Seq<int>| connects(g, p, b, a) && p.len() - 1 == dji;
    lemma_path_reverse(g, p2, b, a);
    assert(p2.reverse().len() - 1 >= dij);
}

/// Metric-closure distances satisfy the triangle inequality: two shortest
/// walks concatenate to a walk, which the shortest distance cannot exceed.
pub proof fn lemma_closure_triangle(
    g: &Graph,
    start: usize,
    mc: &MetricClosure,
    i: int,
    j: int,
    l: int,
)
    requires
        mc.wf(g, start),
        0 <= i < mc.interesting@.len(),
        0 <= j < mc.interesting@.len(),
        0 <= l < mc.interesting@.len(),
    ensures
        mc.dist@[i]@[l] as int <= mc.dist@[i]@[j] as int + mc.dist@[j]@[l] as int,
{
    let a = mc.interesting@[i] as int;
    let b = mc.interesting@[j] as int;
    let c = mc.interesting@[l] as int;
    let p1 = choose|p: Seq<int>| connects(g, p, a, b) && p.len() - 1 == mc.dist@[i]@[j] as int;
    let p2 = choose|p: Seq<int>| connects(g, p, b, c) && p.len() - 1 == mc.dist@[j]@[l] as int;
    lemma_path_concat(g, p1, p2, a, b, c);
    assert((p1 + p2.drop_first()).len() - 1 >= mc.dist@[i]@[l] as int);
}

} // verus!
