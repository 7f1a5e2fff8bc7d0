use vstd::prelude::*;
use crate::graph::Graph;
use crate::graph::PlanError;
use crate::graph::lemma_pos_of;
use crate::graph::validate;
use crate::graph::reward_nodes;
use crate::mask::bit;
use crate::mask::full_mask;
use crate::mask::lemma_or_bound;
use crate::mask::lemma_full_mask_bound;
use crate::rates::RateCache;
use crate::rates::rate_mask;
use crate::rates::rate_mask_upto;
use crate::rates::lemma_rate_mask_bound;
use crate::rates::lemma_rate_mask_or;

verus! {

/// The larger of two values.
pub open spec fn max2(a: int, b: int) -> int {
    if a >= b {
        a
    } else {
        b
    }
}

/// The activation state after triggering node `v`: its bit becomes set if the
/// node bears a reward, and nothing changes otherwise.
pub open spec fn act(g: &Graph, m: u64, v: int) -> u64 {
    if g.is_reward(v) {
        m | (1u64 << (g.pos_of(v) as u64))
    } else {
        m
    }
}

/// Activating `v` in state `m` can change the state: `v` bears a reward and
/// is not active yet.
pub open spec fn can_activate(g: &Graph, m: u64, v: int) -> bool {
    g.is_reward(v) && !bit(m, g.pos_of(v))
}

/// Every reward-bearing node is active.
pub open spec fn all_active(g: &Graph, m: u64) -> bool {
    m == full_mask(g.k())
}

/// Every node has at least one outgoing edge. A connected graph with two or
/// more nodes has this; a node with no way out can strand an agent.
pub open spec fn no_dead_ends(g: &Graph) -> bool {
    forall|v: int| 0 <= v < g.n() ==> g.adj_of(v).len() > 0
}

/// The best reward reachable by moving to one of the neighbours
/// `adj(v)[i..]`, with `t` minutes left after the move; zero when no
/// neighbour remains.
pub open spec fn best_moves(g: &Graph, t: nat, m: u64, v: int, i: int) -> int
    decreases t, 1int, g.adj_of(v).len() - i,
{
    if 0 <= i < g.adj_of(v).len() {
        max2(best(g, t, m, g.adj_of(v)[i] as int), best_moves(g, t, m, v, i + 1))
    } else {
        0
    }
}

/// The maximum cumulative reward achievable with `t` minutes left, activation
/// state `m`, and the agent at node `v`. Each minute accrues the cumulative
/// rate of the current state; a minute is spent either activating the current
/// node or moving to a neighbour. Once every reward-bearing node is active,
/// or with at most one decision left, the value is closed-form.
pub open spec fn best(g: &Graph, t: nat, m: u64, v: int) -> int
    decreases t, 0int, 0int,
{
    if t <= 1 {
        t * rate_mask(g, m)
    } else if all_active(g, m) {
        t * rate_mask(g, m)
    } else if t == 2 {
        rate_mask(g, m) + rate_mask(g, act(g, m, v))
    } else {
        rate_mask(g, m) + max2(
            if can_activate(g, m, v) {
                best(g, (t - 1) as nat, act(g, m, v), v)
            } else {
                0
            },
            best_moves(g, (t - 1) as nat, m, v, 0),
        )
    }
}

/// The planner's value is non-negative and never exceeds budget times the
/// total rate.
pub proof fn lemma_best_bounds(g: &Graph, t: nat, m: u64, v: int)
    ensures
        0 <= best(g, t, m, v) <= t * g.total_rate(),
    decreases t, 0int, 0int,
{
    lemma_rate_mask_bound(g, m);
    let r = rate_mask(g, m);
    let tot = g.total_rate();
    if t <= 1 || all_active(g, m) {
        assert(0 <= t * r <= t * tot) by (nonlinear_arith)
            requires
                0 <= r <= tot,
                t >= 0,
        ;
    } else if t == 2 {
        lemma_rate_mask_bound(g, act(g, m, v));
        assert(2 * tot == t * tot) by (nonlinear_arith)
            requires
                t == 2,
        ;
    } else {
        if can_activate(g, m, v) {
            lemma_best_bounds(g, (t - 1) as nat, act(g, m, v), v);
        }
        lemma_moves_bounds(g, (t - 1) as nat, m, v, 0);
        assert(tot + (t - 1) * tot == t * tot) by (nonlinear_arith);
    }
}

/// As `lemma_best_bounds`, for the best move option.
pub proof fn lemma_moves_bounds(g: &Graph, t: nat, m: u64, v: int, i: int)
    ensures
        0 <= best_moves(g, t, m, v, i) <= t * g.total_rate(),
    decreases t, 1int, g.adj_of(v).len() - i,
{
    if 0 <= i < g.adj_of(v).len() {
        lemma_best_bounds(g, t, m, g.adj_of(v)[i] as int);
        lemma_moves_bounds(g, t, m, v, i + 1);
    } else {
        lemma_rate_mask_bound(g, m);
        assert(0 <= t * g.total_rate()) by (nonlinear_arith)
            requires
                t >= 0,
                g.total_rate() >= 0,
        ;
    }
}

/// The best move option is at least the value of any single move.
pub proof fn lemma_moves_ge(g: &Graph, t: nat, m: u64, v: int, i: int, j: int)
    requires
        0 <= i <= j < g.adj_of(v).len(),
    ensures
        best_moves(g, t, m, v, i) >= best(g, t, m, g.adj_of(v)[j] as int),
    decreases j - i,
{
    if i < j {
        lemma_moves_ge(g, t, m, v, i + 1, j);
    }
    lemma_moves_bounds(g, t, m, v, i + 1);
}

/// With no reward-bearing node, the planner's value is zero for any budget.
pub proof fn lemma_no_reward_zero(g: &Graph, t: nat, v: int)
    requires
        g.k() == 0,
    ensures
        best(g, t, 0u64, v) == 0,
{
    lemma_full_mask_bound(0);
    assert(rate_mask(g, 0u64) == 0);
    assert(t * 0 == 0) by (nonlinear_arith);
}

/// The cumulative rate of the empty activation state is zero.
pub proof fn lemma_rate_mask_zero(g: &Graph, i: int)
    requires
        0 <= i,
    ensures
        rate_mask_upto(g, 0u64, i) == 0,
    decreases i,
{
    if i > 0 {
        lemma_rate_mask_zero(g, i - 1);
        let q = (i - 1) as u64;
        if i - 1 < 64 {
            assert((0u64 >> q) & 1u64 != 1u64) by (bit_vector);
        }
    }
}

/// With a budget of at most one minute, nothing can be activated in time, and
/// the planner's value from the empty activation state is zero.
pub proof fn lemma_unit_budget_zero(g: &Graph, t: nat, v: int)
    requires
        t <= 1,
    ensures
        best(g, t, 0u64, v) == 0,
{
    lemma_rate_mask_zero(g, g.k());
    assert(t * 0 == 0) by (nonlinear_arith);
}

/// A mask with a set bit keeps its value when that bit is set again.
proof fn lemma_or_noop(m: u64, p: u64)
    requires
        p < 64,
        bit(m, p as int),
    ensures
        m | (1u64 << p) == m,
{
    assert((m >> p) & 1u64 == 1u64 ==> (m | (1u64 << p)) == m) by (bit_vector)
        requires
            p < 64,
    ;
}

/// Activation never lowers the cumulative rate, the new state stays in
/// bounds, and re-activation changes nothing.
proof fn lemma_act(g: &Graph, m: u64, v: int)
    requires
        g.k() <= 63,
        m < (1u64 << (g.k() as u64)),
        0 <= v < g.n(),
    ensures
        rate_mask(g, act(g, m, v)) >= rate_mask(g, m),
        act(g, m, v) < (1u64 << (g.k() as u64)),
        !can_activate(g, m, v) ==> act(g, m, v) == m,
        can_activate(g, m, v) ==> rate_mask(g, act(g, m, v)) == rate_mask(g, m) + g.rate(v),
{
    if g.is_reward(v) {
        lemma_pos_of(g, v);
        let p = g.pos_of(v) as u64;
        lemma_rate_mask_or(g, m, p);
        lemma_or_bound(m, p, g.k() as u64);
        if bit(m, p as int) {
            lemma_or_noop(m, p);
        }
    }
}

/// One more minute of budget never lowers the planner's value.
pub proof fn lemma_best_mono(g: &Graph, t: nat, m: u64, v: int)
    requires
        g.wf(),
        no_dead_ends(g),
        g.k() <= 63,
        m < (1u64 << (g.k() as u64)),
        0 <= v < g.n(),
    ensures
        best(g, (t + 1) as nat, m, v) >= best(g, t, m, v),
    decreases t, 0int, 0int,
{
    let r = rate_mask(g, m);
    let tot = g.total_rate();
    lemma_rate_mask_bound(g, m);
    if t == 0 {
        // best(1) == rate >= 0 == best(0)
        assert(1 * r == r) by (nonlinear_arith);
        assert(0 * r == 0) by (nonlinear_arith);
    } else if all_active(g, m) {
        assert((t + 1) * r >= t * r) by (nonlinear_arith)
            requires
                r >= 0,
                t >= 0,
        ;
        assert(1 * r == r) by (nonlinear_arith);
    } else if t == 1 {
        lemma_rate_mask_bound(g, act(g, m, v));
        assert(1 * r == r) by (nonlinear_arith);
    } else if t == 2 {
        let m2 = act(g, m, v);
        lemma_act(g, m, v);
        lemma_rate_mask_bound(g, m2);
        lemma_moves_bounds(g, 2, m, v, 0);
        assert(best(g, (t + 1) as nat, m, v) == r + max2(
            if can_activate(g, m, v) {
                best(g, 2, m2, v)
            } else {
                0
            },
            best_moves(g, 2, m, v, 0),
        ));
        assert(best(g, t, m, v) == r + rate_mask(g, m2));
        if can_activate(g, m, v) {
            // the activate option already matches the closed form
            if all_active(g, m2) {
                assert(best(g, 2, m2, v) == 2 * rate_mask(g, m2));
            } else {
                assert(best(g, 2, m2, v) == rate_mask(g, m2) + rate_mask(g, act(g, m2, v)));
                lemma_act(g, m2, v);
                lemma_rate_mask_bound(g, act(g, m2, v));
            }
            assert(best(g, 2, m2, v) >= rate_mask(g, m2));
        } else {
            // v cannot be activated: move anywhere and activate there if useful
            assert(m2 == m);
            let u = g.adj_of(v)[0] as int;
            assert(0 <= u < g.n());
            lemma_moves_ge(g, 2, m, v, 0, 0);
            lemma_act(g, m, u);
            lemma_rate_mask_bound(g, act(g, m, u));
            assert(best(g, 2, m, u) == rate_mask(g, m) + rate_mask(g, act(g, m, u)));
            assert(best_moves(g, 2, m, v, 0) >= r + r);
        }
    } else {
        if can_activate(g, m, v) {
            lemma_act(g, m, v);
            lemma_best_mono(g, (t - 1) as nat, act(g, m, v), v);
        }
        lemma_moves_mono(g, (t - 1) as nat, m, v, 0);
    }
}

/// As `lemma_best_mono`, for the best move option.
pub proof fn lemma_moves_mono(g: &Graph, t: nat, m: u64, v: int, i: int)
    requires
        g.wf(),
        no_dead_ends(g),
        g.k() <= 63,
        m < (1u64 << (g.k() as u64)),
        0 <= v < g.n(),
    ensures
        best_moves(g, (t + 1) as nat, m, v, i) >= best_moves(g, t, m, v, i),
    decreases t, 1int, g.adj_of(v).len() - i,
{
    if 0 <= i < g.adj_of(v).len() {
        lemma_best_mono(g, t, m, g.adj_of(v)[i] as int);
        lemma_moves_mono(g, t, m, v, i + 1);
    }
}

/// The single-agent planner's value is monotonically non-decreasing in the
/// time budget, on graphs where every node has a way out.
pub proof fn lemma_single_agent_monotone(g: &Graph, start: int, t1: nat, t2: nat)
    requires
        g.wf(),
        no_dead_ends(g),
        g.k() <= 63,
        0 <= start < g.n(),
        t1 <= t2,
    ensures
        best(g, t1, 0u64, start) <= best(g, t2, 0u64, start),
    decreases t2 - t1,
{
    if t1 < t2 {
        lemma_single_agent_monotone(g, start, t1, (t2 - 1) as nat);
        lemma_full_mask_bound(g.k() as u64);
        lemma_best_mono(g, (t2 - 1) as nat, 0u64, start);
    }
}

/// Write-through memo table for the triple (time remaining, activation
/// state, current node).
pub struct Memo {
    /// `rows[t][m][v]`, when present, is the planner's value for that triple.
    pub rows: Vec<Vec<Vec<Option<u64>>>>,
}

impl Memo {
    /// Every row has one slot per activation state and node, and every filled
    /// slot holds the planner's value for its triple.
    pub open spec fn wf(&self, g: &Graph) -> bool {
        &&& forall|t: int|
            0 <= t < self.rows@.len() ==> (#[trigger] self.rows@[t])@.len() == (1u64 << (
            g.k() as u64)) as int
        &&& forall|t: int, m: int|
            0 <= t < self.rows@.len() && 0 <= m < self.rows@[t]@.len() ==> (#[trigger] self
                .rows@[t]@[m])@.len() == g.n()
        &&& forall|t: int, m: int, v: int|
            0 <= t < self.rows@.len() && 0 <= m < self.rows@[t]@.len() && 0 <= v
                < self.rows@[t]@[m]@.len() && (#[trigger] self.rows@[t]@[m]@[v]) is Some
                ==> self.rows@[t]@[m]@[v]->Some_0 as int == best(g, t as nat, m as u64, v)
    }
}

/// Exact memoized search: the maximum achievable cumulative reward for the
/// given triple, equal to the planning recurrence `best`.
fn solve(
    g: &Graph,
    cache: &RateCache,
    posn: &Vec<Option<usize>>,
    k: usize,
    t: u64,
    m: u64,
    v: usize,
    memo: &mut Memo,
) -> (r: u64)
    requires
        g.wf(),
        cache.wf(g),
        k == g.k(),
        k <= 20,
        posn_ok(g, posn@),
        m < (1u64 << (g.k() as u64)),
        (v as int) < g.n(),
        (t as int) < old(memo).rows@.len(),
        old(memo).wf(g),
        t * g.total_rate() <= u64::MAX,
    ensures
        final(memo).wf(g),
        final(memo).rows@.len() == old(memo).rows@.len(),
        r as int == best(g, t as nat, m, v as int),
    decreases t,
{
    proof {
        assert((1u64 << (k as u64)) <= 0x100000u64) by (bit_vector)
            requires
                k <= 20,
        ;
        assert(memo.rows.len() as int == memo.rows@.len());
    }
    let ti = t as usize;
    let mi = m as usize;
    if let Some(x) = memo.rows[ti][mi][v] {
        return x;
    }
    let r0 = cache.rate_of(g, m);
    proof {
        lemma_rate_mask_bound(g, m);
    }
    let result: u64;
    if t <= 1 {
        proof {
            assert(t * r0 == if t == 0 { 0int } else { r0 as int }) by (nonlinear_arith)
                requires
                    t <= 1,
            ;
        }
        result = t * r0;
    } else {
        proof {
            lemma_full_mask_bound(k as u64);
            assert(t * g.total_rate() >= 2 * g.total_rate() >= r0) by (nonlinear_arith)
                requires
                    t >= 2,
                    0 <= r0 <= g.total_rate(),
            ;
        }
        let fullm = (1u64 << (k as u64)) - 1;
        assert(fullm == full_mask(g.k()));
        if m == fullm {
            proof {
                assert(t * r0 <= t * g.total_rate()) by (nonlinear_arith)
                    requires
                        t >= 0,
                        0 <= r0 <= g.total_rate(),
                ;
            }
            result = t * r0;
        } else if t == 2 {
            let m2 = match posn[v] {
                Some(p) => {
                    proof {
                        lemma_pos_of(g, v as int);
                        lemma_or_bound(m, p as u64, k as u64);
                    }
                    m | (1u64 << (p as u64))
                },
                None => m,
            };
            assert(m2 == act(g, m, v as int));
            let r2 = cache.rate_of(g, m2);
            proof {
                lemma_rate_mask_bound(g, m2);
                assert(2 * g.total_rate() == g.total_rate() + g.total_rate()) by (nonlinear_arith);
            }
            result = r0 + r2;
        } else {
            let mut cur: u64 = 0;
            let ghost t1 = (t - 1) as nat;
            let ghost actopt: int = if can_activate(g, m, v as int) {
                best(g, t1, act(g, m, v as int), v as int)
            } else {
                0
            };
            proof {
                crate::graph::lemma_total_prefix_mono(g, 0, g.n());
                assert((t - 1) * g.total_rate() <= t * g.total_rate()) by (nonlinear_arith)
                    requires
                        t >= 1,
                        g.total_rate() >= 0,
                ;
                if g.is_reward(v as int) {
                    lemma_pos_of(g, v as int);
                }
            }
            match posn[v] {
                Some(p) => {
                    if (m >> (p as u64)) & 1u64 != 1u64 {
                        proof {
                            lemma_or_bound(m, p as u64, k as u64);
                        }
                        let c = solve(g, cache, posn, k, t - 1, m | (1u64 << (p as u64)), v, memo);
                        if c > cur {
                            cur = c;
                        }
                        proof {
                            lemma_best_bounds(g, t1, act(g, m, v as int), v as int);
                            assert(cur as int == max2(actopt, 0));
                        }
                    }
                },
                None => {},
            }
            proof {
                assert(!can_activate(g, m, v as int) ==> cur == 0);
                lemma_best_bounds(g, t1, act(g, m, v as int), v as int);
                assert(cur as int == max2(actopt, 0));
            }
            let ghost goal = max2(actopt, best_moves(g, t1, m, v as int, 0));
            let alen = g.adj[v].len();
            let mut idx: usize = 0;
            proof {
                lemma_moves_bounds(g, t1, m, v as int, 0);
            }
            while idx < alen
                invariant
                    g.wf(),
                    cache.wf(g),
                    k == g.k(),
                    k <= 20,
                    posn_ok(g, posn@),
                    m < (1u64 << (g.k() as u64)),
                    (v as int) < g.n(),
                    (t as int) < memo.rows@.len(),
                    memo.rows@.len() == old(memo).rows@.len(),
                    memo.wf(g),
                    t >= 3,
                    t1 == (t - 1) as nat,
                    t * g.total_rate() <= u64::MAX,
                    alen == g.adj_of(v as int).len(),
                    idx <= alen,
                    0 <= cur as int <= (t - 1) * g.total_rate(),
                    goal == max2(cur as int, best_moves(g, t1, m, v as int, idx as int)),
                decreases alen - idx,
            {
                let u = g.adj[v][idx];
                proof {
                    crate::graph::lemma_total_prefix_mono(g, 0, g.n());
                    assert((t - 1) * g.total_rate() <= t * g.total_rate()) by (nonlinear_arith)
                        requires
                            t >= 1,
                            g.total_rate() >= 0,
                    ;
                }
                let c = solve(g, cache, posn, k, t - 1, m, u, memo);
                proof {
                    lemma_best_bounds(g, t1, m, u as int);
                    lemma_moves_bounds(g, t1, m, v as int, idx as int + 1);
                }
                if c > cur {
                    cur = c;
                }
                idx = idx + 1;
            }
            proof {
                assert(best_moves(g, t1, m, v as int, alen as int) == 0);
                assert(goal == cur as int);
                assert((t - 1) * g.total_rate() + g.total_rate() == t * g.total_rate())
                    by (nonlinear_arith);
            }
            result = r0 + cur;
        }
    }
    memo.rows[ti][mi][v] = Some(result);
    result
}

/// The node-to-position table matches the graph: a node has an entry exactly
/// when it bears a reward, and the entry is its position.
pub open spec fn posn_ok(g: &Graph, posn: Seq<Option<usize>>) -> bool {
    &&& posn.len() == g.n()
    &&& forall|v: int| 0 <= v < g.n() ==> ((#[trigger] posn[v]) is Some <==> g.is_reward(v))
    &&& forall|v: int|
        0 <= v < g.n() && g.is_reward(v) ==> (#[trigger] posn[v]) == Some(g.pos_of(v) as usize)
}

/// Exhaustive search over the same recurrence, without memoization: the
/// brute-force oracle for the memoized planner.
fn solve_exhaustive(
    g: &Graph,
    cache: &RateCache,
    posn: &Vec<Option<usize>>,
    k: usize,
    t: u64,
    m: u64,
    v: usize,
) -> (r: u64)
    requires
        g.wf(),
        cache.wf(g),
        k == g.k(),
        k <= 20,
        posn_ok(g, posn@),
        m < (1u64 << (g.k() as u64)),
        (v as int) < g.n(),
        t * g.total_rate() <= u64::MAX,
    ensures
        r as int == best(g, t as nat, m, v as int),
    decreases t,
{
    proof {
        assert((1u64 << (k as u64)) <= 0x100000u64) by (bit_vector)
            requires
                k <= 20,
        ;
    }
    let r0 = cache.rate_of(g, m);
    proof {
        lemma_rate_mask_bound(g, m);
    }
    if t <= 1 {
        proof {
            assert(t * r0 == if t == 0 { 0int } else { r0 as int }) by (nonlinear_arith)
                requires
                    t <= 1,
            ;
        }
        return t * r0;
    }
    proof {
        lemma_full_mask_bound(k as u64);
        assert(t * g.total_rate() >= 2 * g.total_rate() >= r0) by (nonlinear_arith)
            requires
                t >= 2,
                0 <= r0 <= g.total_rate(),
        ;
    }
    let fullm = (1u64 << (k as u64)) - 1;
    if m == fullm {
        proof {
            assert(t * r0 <= t * g.total_rate()) by (nonlinear_arith)
                requires
                    t >= 0,
                    0 <= r0 <= g.total_rate(),
            ;
        }
        return t * r0;
    }
    if t == 2 {
        let m2 = match posn[v] {
            Some(p) => {
                proof {
                    lemma_pos_of(g, v as int);
                    lemma_or_bound(m, p as u64, k as u64);
                }
                m | (1u64 << (p as u64))
            },
            None => m,
        };
        assert(m2 == act(g, m, v as int));
        let r2 = cache.rate_of(g, m2);
        proof {
            lemma_rate_mask_bound(g, m2);
            assert(2 * g.total_rate() == g.total_rate() + g.total_rate()) by (nonlinear_arith);
        }
        return r0 + r2;
    }
    let mut cur: u64 = 0;
    let ghost t1 = (t - 1) as nat;
    let ghost actopt: int = if can_activate(g, m, v as int) {
        best(g, t1, act(g, m, v as int), v as int)
    } else {
        0
    };
    proof {
        crate::graph::lemma_total_prefix_mono(g, 0, g.n());
        assert((t - 1) * g.total_rate() <= t * g.total_rate()) by (nonlinear_arith)
            requires
                t >= 1,
                g.total_rate() >= 0,
        ;
        if g.is_reward(v as int) {
            lemma_pos_of(g, v as int);
        }
    }
    match posn[v] {
        Some(p) => {
            if (m >> (p as u64)) & 1u64 != 1u64 {
                proof {
                    lemma_or_bound(m, p as u64, k as u64);
                }
                let c = solve_exhaustive(g, cache, posn, k, t - 1, m | (1u64 << (p as u64)), v);
                if c > cur {
                    cur = c;
                }
                proof {
                    lemma_best_bounds(g, t1, act(g, m, v as int), v as int);
                    assert(cur as int == max2(actopt, 0));
                }
            }
        },
        None => {},
    }
    proof {
        lemma_best_bounds(g, t1, act(g, m, v as int), v as int);
        assert(cur as int == max2(actopt, 0));
    }
    let ghost goal = max2(actopt, best_moves(g, t1, m, v as int, 0));
    let alen = g.adj[v].len();
    let mut idx: usize = 0;
    proof {
        lemma_moves_bounds(g, t1, m, v as int, 0);
    }
    while idx < alen
        invariant
            g.wf(),
            cache.wf(g),
            k == g.k(),
            k <= 20,
            posn_ok(g, posn@),
            m < (1u64 << (g.k() as u64)),
            (v as int) < g.n(),
            t >= 3,
            t1 == (t - 1) as nat,
            t * g.total_rate() <= u64::MAX,
            alen == g.adj_of(v as int).len(),
            idx <= alen,
            0 <= cur as int <= (t - 1) * g.total_rate(),
            goal == max2(cur as int, best_moves(g, t1, m, v as int, idx as int)),
        decreases alen - idx,
    {
        let u = g.adj[v][idx];
        proof {
            crate::graph::lemma_total_prefix_mono(g, 0, g.n());
            assert((t - 1) * g.total_rate() <= t * g.total_rate()) by (nonlinear_arith)
                requires
                    t >= 1,
                    g.total_rate() >= 0,
            ;
        }
        let c = solve_exhaustive(g, cache, posn, k, t - 1, m, u);
        proof {
            lemma_best_bounds(g, t1, m, u as int);
            lemma_moves_bounds(g, t1, m, v as int, idx as int + 1);
        }
        if c > cur {
            cur = c;
        }
        idx = idx + 1;
    }
    proof {
        assert(best_moves(g, t1, m, v as int, alen as int) == 0);
        assert(goal == cur as int);
        assert((t - 1) * g.total_rate() + g.total_rate() == t * g.total_rate())
            by (nonlinear_arith);
    }
    r0 + cur
}

/// Whether the planners accept the graph and start node.
pub open spec fn inputs_resolve(g: &Graph, start: u64) -> bool {
    g.wf() && (start as int) < g.n()
}

/// The maximum cumulative reward one agent can accrue within `budget`
/// minutes, starting at `start` with no node active, by memoized search.
pub fn plan_single_agent(g: &Graph, start: u64, budget: u64) -> (r: Result<u64, PlanError>)
    requires
        g.k() <= 20,
        budget * g.total_rate() <= u64::MAX,
        budget < usize::MAX as u64,
    ensures
        !inputs_resolve(g, start) ==> r == Err::<u64, PlanError>(PlanError::UnknownNode),
        inputs_resolve(g, start) && budget == 0 ==> r == Err::<u64, PlanError>(
            PlanError::InvalidBudget,
        ),
        inputs_resolve(g, start) && budget >= 1 ==> (r matches Ok(x) && x as int == best(
            g,
            budget as nat,
            0u64,
            start as int,
        )),
{
    if !validate(g) || start >= g.rates.len() as u64 {
        return Err(PlanError::UnknownNode);
    }
    if budget == 0 {
        return Err(PlanError::InvalidBudget);
    }
    let (rn, posn) = reward_nodes(g);
    let k = rn.len();
    proof {
        crate::graph::lemma_total_prefix_mono(g, 0, g.n());
        assert(1 * g.total_rate() <= budget * g.total_rate()) by (nonlinear_arith)
            requires
                budget >= 1,
                g.total_rate() >= 0,
        ;
        assert((1u64 << (k as u64)) <= 0x100000u64) by (bit_vector)
            requires
                k <= 20,
        ;
    }
    let cache = RateCache::build(g, &rn);
    let msize = (1u64 << (k as u64)) as usize;
    let n = g.rates.len();
    let tcount = (budget as usize) + 1;
    let mut rows: Vec<Vec<Vec<Option<u64>>>> = Vec::new();
    while rows.len() < tcount
        invariant
            rows@.len() <= tcount,
            forall|ti: int|
                0 <= ti < rows@.len() ==> (#[trigger] rows@[ti])@.len() == msize as int,
            forall|ti: int, mi: int|
                0 <= ti < rows@.len() && 0 <= mi < rows@[ti]@.len() ==> (#[trigger] rows@[ti]@[mi])@
                    .len() == n,
            forall|ti: int, mi: int, vi: int|
                0 <= ti < rows@.len() && 0 <= mi < rows@[ti]@.len() && 0 <= vi
                    < rows@[ti]@[mi]@.len() ==> (#[trigger] rows@[ti]@[mi]@[vi]) is None,
        decreases tcount - rows.len(),
    {
        let mut plane: Vec<Vec<Option<u64>>> = Vec::new();
        while plane.len() < msize
            invariant
                plane@.len() <= msize,
                forall|mi: int|
                    0 <= mi < plane@.len() ==> (#[trigger] plane@[mi])@.len() == n,
                forall|mi: int, vi: int|
                    0 <= mi < plane@.len() && 0 <= vi < plane@[mi]@.len() ==> (#[trigger] plane@[mi]@[vi]) is None,
            decreases msize - plane.len(),
        {
            let line: Vec<Option<u64>> = vec![None; n];
            plane.push(line);
        }
        rows.push(plane);
    }
    let mut memo = Memo { rows };
    proof {
        lemma_full_mask_bound(k as u64);
    }
    let r = solve(g, &cache, &posn, k, budget, 0u64, start as usize, &mut memo);
    Ok(r)
}

/// The maximum cumulative reward one agent can accrue, by brute-force
/// exhaustive search over the same recurrence; a correctness oracle for
/// `plan_single_agent` on small graphs.
pub fn plan_single_agent_exhaustive(g: &Graph, start: u64, budget: u64) -> (r: Result<
    u64,
    PlanError,
>)
    requires
        g.k() <= 20,
        budget * g.total_rate() <= u64::MAX,
    ensures
        !inputs_resolve(g, start) ==> r == Err::<u64, PlanError>(PlanError::UnknownNode),
        inputs_resolve(g, start) && budget == 0 ==> r == Err::<u64, PlanError>(
            PlanError::InvalidBudget,
        ),
        inputs_resolve(g, start) && budget >= 1 ==> (r matches Ok(x) && x as int == best(
            g,
            budget as nat,
            0u64,
            start as int,
        )),
{
    if !validate(g) || start >= g.rates.len() as u64 {
        return Err(PlanError::UnknownNode);
    }
    if budget == 0 {
        return Err(PlanError::InvalidBudget);
    }
    let (rn, posn) = reward_nodes(g);
    let k = rn.len();
    proof {
        crate::graph::lemma_total_prefix_mono(g, 0, g.n());
        assert(1 * g.total_rate() <= budget * g.total_rate()) by (nonlinear_arith)
            requires
                budget >= 1,
                g.total_rate() >= 0,
        ;
        lemma_full_mask_bound(k as u64);
    }
    let cache = RateCache::build(g, &rn);
    let r = solve_exhaustive(g, &cache, &posn, k, budget, 0u64, start as usize);
    Ok(r)
}

/// The memoized planner and the brute-force oracle agree: both return the
/// value of the planning recurrence, so their results are equal on every
/// accepted input.
pub proof fn lemma_memoized_equals_exhaustive(g: &Graph, x1: u64, x2: u64, t: nat, start: int)
    requires
        x1 as int == best(g, t, 0u64, start),
        x2 as int == best(g, t, 0u64, start),
    ensures
        x1 == x2,
{
}

} // verus!
