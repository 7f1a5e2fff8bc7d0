use vstd::prelude::*;
use crate::graph::Graph;
use crate::graph::PlanError;
use crate::graph::lemma_reward_prefix;
use crate::graph::lemma_total_prefix_mono;
use crate::graph::validate;
use crate::graph::reward_nodes;
use crate::mask::bit;
use crate::mask::full_mask;
use crate::mask::mask_positions;
use crate::mask::lemma_mask_positions;
use crate::mask::lemma_mask_positions_clear;
use crate::mask::lemma_mask_positions_full;
use crate::mask::lemma_bit_clear;
use crate::mask::lemma_and_le;
use crate::mask::lemma_full_mask_bound;
use crate::rates::rate_mask;
use crate::rates::lemma_rate_mask_bound;
use crate::rates::lemma_rate_mask_clear;
use crate::rates::lemma_rate_le_total;
use crate::closure::MetricClosure;
use crate::closure::interesting_seq;
use crate::closure::spec_dist;
use crate::closure::lemma_dist_unique;
use crate::closure::interesting_connected;
use crate::single::max2;
use crate::single::inputs_resolve;
use crate::single::lemma_rate_mask_zero;
use crate::outside::pairs_of;
use crate::outside::lemma_pairs_of_elems;
use crate::outside::ordered_pairs;
use crate::outside::sort_by_reward_desc;

verus! {

/// How many partial solutions the beam keeps after each pruning step. A
/// tunable bound on memory and runtime, not a correctness invariant.
pub const BEAM_WIDTH: usize = 10000;

/// One partial solution of the dual-agent search: each agent's route
/// terminus and elapsed time, the committed reward, and the reward-bearing
/// nodes not yet assigned to either agent. Positions index the metric
/// closure: row 0 is the start node, row `1 + p` the reward-bearing node at
/// position `p`. States are immutable values; children are fresh states.
#[derive(Clone, Copy, Debug, PartialEq, Eq, Structural)]
pub struct SearchState {
    /// Terminus of agent A's route.
    pub pos_a: usize,
    /// Terminus of agent B's route.
    pub pos_b: usize,
    /// Minutes agent A has spent travelling and activating.
    pub el_a: u64,
    /// Minutes agent B has spent travelling and activating.
    pub el_b: u64,
    /// Reward committed by both routes so far.
    pub reward: u64,
    /// Bitmask of the reward positions still unassigned.
    pub rem: u64,
}

/// Views the distance table as a sequence of rows.
pub open spec fn table_view(t: Seq<Vec<u64>>) -> Seq<Seq<u64>> {
    t.map_values(|r: Vec<u64>| r@)
}

/// The distance table covers the start node and `k` reward positions, with
/// entries bounded by the node count.
pub open spec fn table_ok(g: &Graph, md: Seq<Seq<u64>>, k: int) -> bool {
    &&& md.len() == k + 1
    &&& forall|i: int| 0 <= i <= k ==> (#[trigger] md[i]).len() == k + 1
    &&& forall|i: int, j: int|
        0 <= i <= k && 0 <= j <= k ==> ((#[trigger] md[i][j]) as int) <= g.n()
}

/// One agent tries to claim the reward position `tgt`: if it can arrive and
/// activate strictly within the budget, its route extends and it gains the
/// target's rate for each remaining minute; otherwise nothing changes.
/// Returns the new terminus, the new elapsed time, and the gained reward.
pub open spec fn extend_agent(
    md: Seq<Seq<u64>>,
    pr: Seq<u64>,
    tb: u64,
    pos: usize,
    el: u64,
    tgt: int,
) -> (usize, u64, u64) {
    let dd = md[pos as int][1 + tgt];
    if el + dd + 1 < tb {
        ((1 + tgt) as usize, (el + dd + 1) as u64, (pr[tgt] * (tb - el - dd - 1)) as u64)
    } else {
        (pos, el, 0u64)
    }
}

/// The child state for one ordered pair of targets: agent A heads for `a`,
/// agent B for `b`, and both targets leave the remainder.
pub open spec fn pair_child(
    md: Seq<Seq<u64>>,
    pr: Seq<u64>,
    tb: u64,
    st: SearchState,
    a: int,
    b: int,
) -> SearchState {
    let ea = extend_agent(md, pr, tb, st.pos_a, st.el_a, a);
    let eb = extend_agent(md, pr, tb, st.pos_b, st.el_b, b);
    SearchState {
        pos_a: ea.0,
        pos_b: eb.0,
        el_a: ea.1,
        el_b: eb.1,
        reward: (st.reward + ea.2 + eb.2) as u64,
        rem: st.rem & !(1u64 << (a as u64)) & !(1u64 << (b as u64)),
    }
}

/// The child state when one target remains: both agents race for it, the
/// shorter distance wins, an exact tie favours agent A, and the winner claims
/// it only if still within budget.
pub open spec fn race_child(
    md: Seq<Seq<u64>>,
    pr: Seq<u64>,
    tb: u64,
    st: SearchState,
    k: int,
) -> SearchState {
    let ps = mask_positions(st.rem, k);
    if ps.len() == 0 {
        SearchState {
            pos_a: st.pos_a,
            pos_b: st.pos_b,
            el_a: st.el_a,
            el_b: st.el_b,
            reward: st.reward,
            rem: 0u64,
        }
    } else {
        let a = ps[0] as int;
        let da = md[st.pos_a as int][1 + a];
        let db = md[st.pos_b as int][1 + a];
        if da <= db {
            let ea = extend_agent(md, pr, tb, st.pos_a, st.el_a, a);
            SearchState {
                pos_a: ea.0,
                pos_b: st.pos_b,
                el_a: ea.1,
                el_b: st.el_b,
                reward: (st.reward + ea.2) as u64,
                rem: 0u64,
            }
        } else {
            let eb = extend_agent(md, pr, tb, st.pos_b, st.el_b, a);
            SearchState {
                pos_a: st.pos_a,
                pos_b: eb.0,
                el_a: st.el_a,
                el_b: eb.1,
                reward: (st.reward + eb.2) as u64,
                rem: 0u64,
            }
        }
    }
}

/// All children of one state: one child per ordered pair of distinct targets
/// drawn from the remainder.
pub open spec fn expand_state(
    md: Seq<Seq<u64>>,
    pr: Seq<u64>,
    tb: u64,
    st: SearchState,
    k: int,
) -> Seq<SearchState> {
    pairs_of(mask_positions(st.rem, k)).map_values(
        |pq: (usize, usize)| pair_child(md, pr, tb, st, pq.0 as int, pq.1 as int),
    )
}

/// The children of every state of the frontier, in frontier order.
pub open spec fn expand_all(
    md: Seq<Seq<u64>>,
    pr: Seq<u64>,
    tb: u64,
    f: Seq<SearchState>,
    k: int,
) -> Seq<SearchState>
    decreases f.len(),
{
    if f.len() == 0 {
        Seq::empty()
    } else {
        expand_all(md, pr, tb, f.drop_last(), k) + expand_state(md, pr, tb, f.last(), k)
    }
}

/// The race child of every state of the frontier.
pub open spec fn race_all(
    md: Seq<Seq<u64>>,
    pr: Seq<u64>,
    tb: u64,
    f: Seq<SearchState>,
    k: int,
) -> Seq<SearchState>
    decreases f.len(),
{
    if f.len() == 0 {
        Seq::empty()
    } else {
        race_all(md, pr, tb, f.drop_last(), k).push(race_child(md, pr, tb, f.last(), k))
    }
}

/// Stable insertion into a frontier sorted by descending reward: a new state
/// goes after the states with at least its reward.
pub open spec fn insert_desc(x: SearchState, s: Seq<SearchState>) -> Seq<SearchState>
    decreases s.len(),
{
    if s.len() == 0 {
        seq![x]
    } else if x.reward > s[0].reward {
        seq![x] + s
    } else {
        seq![s[0]] + insert_desc(x, s.drop_first())
    }
}

/// The stable sort by descending reward: states are inserted in frontier
/// order, each after its equals.
pub open spec fn sort_desc(s: Seq<SearchState>) -> Seq<SearchState>
    decreases s.len(),
{
    if s.len() == 0 {
        s
    } else {
        insert_desc(s.last(), sort_desc(s.drop_last()))
    }
}

/// The frontier truncated to the beam width.
pub open spec fn prune(s: Seq<SearchState>) -> Seq<SearchState> {
    if s.len() > BEAM_WIDTH {
        s.subrange(0, BEAM_WIDTH as int)
    } else {
        s
    }
}

/// The largest committed reward over the frontier; zero for an empty one.
pub open spec fn max_reward(s: Seq<SearchState>) -> int
    decreases s.len(),
{
    if s.len() == 0 {
        0
    } else {
        max2(max_reward(s.drop_last()), s.last().reward as int)
    }
}

/// The beam search from a frontier whose states all have `sz` unassigned
/// targets: expansion commits two targets per step; with one target left the
/// agents race for it; the answer is the best committed reward over the final
/// expansion.
pub open spec fn run_spec(
    md: Seq<Seq<u64>>,
    pr: Seq<u64>,
    tb: u64,
    f: Seq<SearchState>,
    sz: nat,
    k: int,
) -> int
    decreases sz,
{
    if sz == 0 {
        max_reward(f)
    } else if sz == 1 {
        max_reward(race_all(md, pr, tb, f, k))
    } else if sz == 2 {
        max_reward(expand_all(md, pr, tb, f, k))
    } else {
        run_spec(md, pr, tb, prune(sort_desc(expand_all(md, pr, tb, f, k))), (sz - 2) as nat, k)
    }
}

/// The shortest-path distances between interesting nodes, as the scheduler
/// consumes them.
pub open spec fn md_spec(g: &Graph, start: usize) -> Seq<Seq<u64>> {
    Seq::new(
        interesting_seq(g, start).len(),
        |i: int|
            Seq::new(
                interesting_seq(g, start).len(),
                |j: int|
                    spec_dist(
                        g,
                        interesting_seq(g, start)[i] as int,
                        interesting_seq(g, start)[j] as int,
                    ) as u64,
            ),
    )
}

/// The reward rates by reward position.
pub open spec fn prates_spec(g: &Graph) -> Seq<u64> {
    Seq::new(g.k() as nat, |p: int| g.rate(g.reward_seq()[p] as int))
}

/// The search's first state: both agents at the start node, nothing spent,
/// nothing committed, every reward position unassigned.
pub open spec fn init_state(g: &Graph) -> SearchState {
    SearchState {
        pos_a: 0,
        pos_b: 0,
        el_a: 0,
        el_b: 0,
        reward: 0,
        rem: full_mask(g.k()),
    }
}

/// What the dual-agent scheduler returns on an accepted input.
pub open spec fn dual_result(g: &Graph, start: usize, tb: u64) -> int {
    run_spec(md_spec(g, start), prates_spec(g), tb, seq![init_state(g)], g.k() as nat, g.k())
}

/// The reward bound of the state invariant, as one named fact.
pub open spec fn tb_bound_holds(g: &Graph, tb: u64, s: SearchState) -> bool {
    s.reward as int + tb * rate_mask(g, s.rem) <= tb * g.total_rate()
}

/// The state invariant of the search: positions index the closure, elapsed
/// times stay within the budget, the remainder is a valid mask, and the
/// committed reward leaves room for the unassigned rates within the overall
/// bound of budget times total rate.
pub open spec fn st_inv(g: &Graph, tb: u64, s: SearchState, k: int) -> bool {
    &&& (s.pos_a as int) <= k
    &&& (s.pos_b as int) <= k
    &&& (s.el_a as int) < tb
    &&& (s.el_b as int) < tb
    &&& s.rem < (1u64 << (k as u64))
    &&& s.reward as int + tb * rate_mask(g, s.rem) <= tb * g.total_rate()
}

/// Every state of the frontier satisfies the invariant and has `sz`
/// unassigned targets.
pub open spec fn frontier_inv(g: &Graph, tb: u64, f: Seq<SearchState>, k: int, sz: int) -> bool {
    forall|q: int|
        0 <= q < f.len() ==> st_inv(g, tb, #[trigger] f[q], k) && mask_positions(
            f[q].rem,
            k,
        ).len() == sz
}

/// Insertion keeps the length and introduces no new states.
pub proof fn lemma_insert_desc(x: SearchState, s: Seq<SearchState>)
    ensures
        insert_desc(x, s).len() == s.len() + 1,
        forall|q: int|
            0 <= q < insert_desc(x, s).len() ==> (#[trigger] insert_desc(x, s)[q]) == x
                || s.contains(insert_desc(x, s)[q]),
    decreases s.len(),
{
    if s.len() != 0 && !(x.reward > s[0].reward) {
        lemma_insert_desc(x, s.drop_first());
        let r = insert_desc(x, s);
        let r1 = insert_desc(x, s.drop_first());
        assert(r[0] == s[0] && s.contains(s[0]));
        assert forall|q: int| 1 <= q < r.len() implies (#[trigger] r[q]) == x || s.contains(
            r[q],
        ) by {
            assert(r[q] == r1[q - 1]);
            if r1[q - 1] != x {
                let w = choose|w: int|
                    0 <= w < s.drop_first().len() && (#[trigger] s.drop_first()[w]) == r1[q - 1];
                assert(s[w + 1] == r1[q - 1]);
            }
        }
    }
}

/// Sorting keeps the length and introduces no new states.
pub proof fn lemma_sort_desc(s: Seq<SearchState>)
    ensures
        sort_desc(s).len() == s.len(),
        forall|q: int|
            0 <= q < sort_desc(s).len() ==> s.contains(#[trigger] sort_desc(s)[q]),
    decreases s.len(),
{
    if s.len() != 0 {
        lemma_sort_desc(s.drop_last());
        lemma_insert_desc(s.last(), sort_desc(s.drop_last()));
        assert forall|q: int| 0 <= q < sort_desc(s).len() implies s.contains(
            #[trigger] sort_desc(s)[q],
        ) by {
            let y = sort_desc(s)[q];
            if y == s.last() {
                assert(s[s.len() - 1] == y);
            } else {
                assert(sort_desc(s.drop_last()).contains(y));
                let w = choose|w: int|
                    0 <= w < s.drop_last().len() && (#[trigger] s.drop_last()[w]) == y;
                assert(s[w] == y);
            }
        }
    }
}

/// Every state of the frontier has reward zero.
pub open spec fn all_zero(f: Seq<SearchState>) -> bool {
    forall|q: int| 0 <= q < f.len() ==> (#[trigger] f[q]).reward == 0
}

/// With a budget of at most one minute no agent can arrive and activate in
/// time, so expansion commits no reward.
proof fn lemma_expand_zero(md: Seq<Seq<u64>>, pr: Seq<u64>, tb: u64, f: Seq<SearchState>, k: int)
    requires
        tb <= 1,
        all_zero(f),
    ensures
        all_zero(expand_all(md, pr, tb, f, k)),
    decreases f.len(),
{
    if f.len() != 0 {
        lemma_expand_zero(md, pr, tb, f.drop_last(), k);
        let e = expand_all(md, pr, tb, f, k);
        let e0 = expand_all(md, pr, tb, f.drop_last(), k);
        let es = expand_state(md, pr, tb, f.last(), k);
        assert(f.drop_last().len() <= f.len());
        assert(f[f.len() - 1].reward == 0);
        assert forall|q: int| 0 <= q < e.len() implies (#[trigger] e[q]).reward == 0 by {
            if q < e0.len() {
                assert(e[q] == e0[q]);
            } else {
                assert(e[q] == es[q - e0.len()]);
            }
        }
    }
}

/// As `lemma_expand_zero`, for the race step.
proof fn lemma_race_zero(md: Seq<Seq<u64>>, pr: Seq<u64>, tb: u64, f: Seq<SearchState>, k: int)
    requires
        tb <= 1,
        all_zero(f),
    ensures
        all_zero(race_all(md, pr, tb, f, k)),
    decreases f.len(),
{
    if f.len() != 0 {
        lemma_race_zero(md, pr, tb, f.drop_last(), k);
        let e = race_all(md, pr, tb, f, k);
        let e0 = race_all(md, pr, tb, f.drop_last(), k);
        assert(f[f.len() - 1].reward == 0);
        assert forall|q: int| 0 <= q < e.len() implies (#[trigger] e[q]).reward == 0 by {
            if q < e0.len() {
                assert(e[q] == e0[q]);
            }
        }
    }
}

/// A frontier of zero-reward states has best reward zero.
proof fn lemma_max_zero(f: Seq<SearchState>)
    requires
        all_zero(f),
    ensures
        max_reward(f) == 0,
    decreases f.len(),
{
    if f.len() != 0 {
        lemma_max_zero(f.drop_last());
    }
}

/// The whole search returns zero from a zero-reward frontier when the budget
/// is at most one minute.
proof fn lemma_run_zero(md: Seq<Seq<u64>>, pr: Seq<u64>, tb: u64, f: Seq<SearchState>, sz: nat, k: int)
    requires
        tb <= 1,
        all_zero(f),
    ensures
        run_spec(md, pr, tb, f, sz, k) == 0,
    decreases sz,
{
    if sz == 0 {
        lemma_max_zero(f);
    } else if sz == 1 {
        lemma_race_zero(md, pr, tb, f, k);
        lemma_max_zero(race_all(md, pr, tb, f, k));
    } else if sz == 2 {
        lemma_expand_zero(md, pr, tb, f, k);
        lemma_max_zero(expand_all(md, pr, tb, f, k));
    } else {
        lemma_expand_zero(md, pr, tb, f, k);
        let e = expand_all(md, pr, tb, f, k);
        lemma_sort_desc(e);
        let s = sort_desc(e);
        assert forall|q: int| 0 <= q < s.len() implies (#[trigger] s[q]).reward == 0 by {
            assert(e.contains(s[q]));
            let w = choose|w: int| 0 <= w < e.len() && (#[trigger] e[w]) == s[q];
        }
        let p = prune(s);
        assert(all_zero(p));
        lemma_run_zero(md, pr, tb, p, (sz - 2) as nat, k);
    }
}

/// With no reward-bearing node, the dual-agent scheduler returns zero for any
/// budget.
pub proof fn lemma_dual_no_reward(g: &Graph, start: usize, tb: u64)
    requires
        g.k() == 0,
    ensures
        dual_result(g, start, tb) == 0,
{
    let f = seq![init_state(g)];
    assert(max_reward(f.drop_last()) == 0);
}

/// With a budget of at most one minute, the dual-agent scheduler returns
/// zero.
pub proof fn lemma_dual_unit_budget(g: &Graph, start: usize, tb: u64)
    requires
        tb <= 1,
    ensures
        dual_result(g, start, tb) == 0,
{
    let f = seq![init_state(g)];
    assert(all_zero(f));
    lemma_run_zero(md_spec(g, start), prates_spec(g), tb, f, g.k() as nat, g.k());
}

/// The set positions of a remainder mask, lowest first.
fn bits_of(rem: u64, k: usize) -> (r: Vec<usize>)
    requires
        k <= 63,
    ensures
        r@ == mask_positions(rem, k as int),
{
    let mut r: Vec<usize> = Vec::new();
    for p in 0..k
        invariant
            k <= 63,
            r@ == mask_positions(rem, p as int),
    {
        if (rem >> (p as u64)) & 1u64 == 1u64 {
            r.push(p);
        }
    }
    r
}

/// Committing the two targets leaves room in the reward bound for their two
/// gains.
proof fn lemma_child_reward_bound(g: &Graph, tb: u64, st: SearchState, a: u64, b: u64, k: int)
    requires
        k == g.k(),
        k <= 20,
        st.reward as int + tb * rate_mask(g, st.rem) <= tb * g.total_rate(),
        (a as int) < k,
        (b as int) < k,
        a != b,
        bit(st.rem, a as int),
        bit(st.rem, b as int),
    ensures
        st.reward as int + (g.rate(g.reward_seq()[a as int] as int) as int) * tb + (g.rate(
            g.reward_seq()[b as int] as int,
        ) as int) * tb + tb * rate_mask(g, st.rem & !(1u64 << a) & !(1u64 << b)) <= tb
            * g.total_rate(),
{
    let pra = g.rate(g.reward_seq()[a as int] as int) as int;
    let prb = g.rate(g.reward_seq()[b as int] as int) as int;
    let rem1 = st.rem & !(1u64 << a);
    let rem2 = rem1 & !(1u64 << b);
    lemma_rate_mask_clear(g, st.rem, a);
    lemma_bit_clear(st.rem, a, b);
    lemma_rate_mask_clear(g, rem1, b);
    assert(tb * rate_mask(g, st.rem) == tb * rate_mask(g, rem2) + pra * tb + prb * tb)
        by (nonlinear_arith)
        requires
            rate_mask(g, st.rem) == rate_mask(g, rem2) + pra + prb,
    ;
}

/// Builds the child state for one ordered pair of targets, matching the
/// specification `pair_child` exactly.
fn make_pair_child(
    g: &Graph,
    mdv: &Vec<Vec<u64>>,
    prv: &Vec<u64>,
    tb: u64,
    st: SearchState,
    a: usize,
    b: usize,
    k: usize,
) -> (r: SearchState)
    requires
        k == g.k(),
        k <= 20,
        table_ok(g, table_view(mdv@), k as int),
        prv@ == prates_spec(g),
        tb >= 1,
        g.n() < u64::MAX,
        tb * g.total_rate() <= u64::MAX,
        st_inv(g, tb, st, k as int),
        (a as int) < k,
        (b as int) < k,
        a != b,
        bit(st.rem, a as int),
        bit(st.rem, b as int),
    ensures
        r == pair_child(table_view(mdv@), prv@, tb, st, a as int, b as int),
        st_inv(g, tb, r, k as int),
        mask_positions(r.rem, k as int).len() == mask_positions(st.rem, k as int).len() - 2,
{
    let ghost md = table_view(mdv@);
    proof {
        assert(mdv@.len() == md.len());
        assert(md[st.pos_a as int] == mdv@[st.pos_a as int]@);
        assert(md[st.pos_b as int] == mdv@[st.pos_b as int]@);
        lemma_reward_prefix(g, g.n());
        lemma_total_prefix_mono(g, 0, g.n());
        lemma_rate_le_total(g, g.reward_seq()[a as int] as int);
        lemma_rate_le_total(g, g.reward_seq()[b as int] as int);
        lemma_child_reward_bound(g, tb, st, a as u64, b as u64, k as int);
        lemma_rate_mask_bound(g, st.rem & !(1u64 << (a as u64)) & !(1u64 << (b as u64)));
    }
    let da = mdv[st.pos_a][1 + a];
    let npa: usize;
    let nea: u64;
    let ga: u64;
    if da + 1 < tb - st.el_a {
        let comp = st.el_a + da + 1;
        proof {
            assert((prv@[a as int] as int) * ((tb - comp) as int) <= g.total_rate() * tb)
                by (nonlinear_arith)
                requires
                    0 <= (prv@[a as int] as int) <= g.total_rate(),
                    0 <= ((tb - comp) as int) <= tb as int,
            ;
            assert(g.total_rate() * tb == tb * g.total_rate()) by (nonlinear_arith);
            assert((prv@[a as int] as int) * ((tb - comp) as int) <= (prv@[a as int] as int) * (
            tb as int)) by (nonlinear_arith)
                requires
                    0 <= (prv@[a as int] as int),
                    0 <= ((tb - comp) as int) <= tb as int,
            ;
        }
        let gain = prv[a] * (tb - comp);
        npa = 1 + a;
        nea = comp;
        ga = gain;
    } else {
        npa = st.pos_a;
        nea = st.el_a;
        ga = 0;
    }
    proof {
        assert((npa, nea, ga) == extend_agent(md, prv@, tb, st.pos_a, st.el_a, a as int));
        assert(ga as int <= (prv@[a as int] as int) * (tb as int)) by (nonlinear_arith)
            requires
                ga as int == 0 || ga as int <= (prv@[a as int] as int) * (tb as int),
                0 <= (prv@[a as int] as int),
                0 <= tb as int,
        ;
    }
    let db = mdv[st.pos_b][1 + b];
    let npb: usize;
    let neb: u64;
    let gb: u64;
    if db + 1 < tb - st.el_b {
        let comp = st.el_b + db + 1;
        proof {
            assert((prv@[b as int] as int) * ((tb - comp) as int) <= g.total_rate() * tb)
                by (nonlinear_arith)
                requires
                    0 <= (prv@[b as int] as int) <= g.total_rate(),
                    0 <= ((tb - comp) as int) <= tb as int,
            ;
            assert(g.total_rate() * tb == tb * g.total_rate()) by (nonlinear_arith);
            assert((prv@[b as int] as int) * ((tb - comp) as int) <= (prv@[b as int] as int) * (
            tb as int)) by (nonlinear_arith)
                requires
                    0 <= (prv@[b as int] as int),
                    0 <= ((tb - comp) as int) <= tb as int,
            ;
        }
        let gain = prv[b] * (tb - comp);
        npb = 1 + b;
        neb = comp;
        gb = gain;
    } else {
        npb = st.pos_b;
        neb = st.el_b;
        gb = 0;
    }
    proof {
        assert((npb, neb, gb) == extend_agent(md, prv@, tb, st.pos_b, st.el_b, b as int));
        assert(gb as int <= (prv@[b as int] as int) * (tb as int)) by (nonlinear_arith)
            requires
                gb as int == 0 || gb as int <= (prv@[b as int] as int) * (tb as int),
                0 <= (prv@[b as int] as int),
                0 <= tb as int,
        ;
        lemma_and_le(st.rem, !(1u64 << (a as u64)));
        lemma_and_le(st.rem & !(1u64 << (a as u64)), !(1u64 << (b as u64)));
        lemma_mask_positions_clear(st.rem, a as u64, k as int);
        lemma_bit_clear(st.rem, a as u64, b as u64);
        lemma_mask_positions_clear(st.rem & !(1u64 << (a as u64)), b as u64, k as int);
    }
    let nrem = st.rem & !(1u64 << (a as u64)) & !(1u64 << (b as u64));
    let nreward = st.reward + ga + gb;
    let r = SearchState { pos_a: npa, pos_b: npb, el_a: nea, el_b: neb, reward: nreward, rem: nrem };
    proof {
        assert(r == pair_child(md, prv@, tb, st, a as int, b as int));
    }
    r
}

/// Builds the race child for a state with one remaining target, matching the
/// specification `race_child` exactly.
fn make_race_child(
    g: &Graph,
    mdv: &Vec<Vec<u64>>,
    prv: &Vec<u64>,
    tb: u64,
    st: SearchState,
    k: usize,
) -> (r: SearchState)
    requires
        k == g.k(),
        k <= 20,
        table_ok(g, table_view(mdv@), k as int),
        prv@ == prates_spec(g),
        tb >= 1,
        g.n() < u64::MAX,
        tb * g.total_rate() <= u64::MAX,
        st_inv(g, tb, st, k as int),
    ensures
        r == race_child(table_view(mdv@), prv@, tb, st, k as int),
        st_inv(g, tb, r, k as int),
{
    let ghost md = table_view(mdv@);
    proof {
        assert(mdv@.len() == md.len());
        assert(md[st.pos_a as int] == mdv@[st.pos_a as int]@);
        assert(md[st.pos_b as int] == mdv@[st.pos_b as int]@);
        lemma_reward_prefix(g, g.n());
        lemma_total_prefix_mono(g, 0, g.n());
        lemma_mask_positions(st.rem, k as int);
        lemma_rate_mask_zero(g, g.k());
        lemma_full_mask_bound(k as u64);
    }
    let positions = bits_of(st.rem, k);
    if positions.len() == 0 {
        let r = SearchState {
            pos_a: st.pos_a,
            pos_b: st.pos_b,
            el_a: st.el_a,
            el_b: st.el_b,
            reward: st.reward,
            rem: 0u64,
        };
        proof {
            lemma_rate_mask_bound(g, st.rem);
            assert(tb * rate_mask(g, st.rem) >= 0) by (nonlinear_arith)
                requires
                    tb >= 1,
                    rate_mask(g, st.rem) >= 0,
            ;
        }
        return r;
    }
    let a = positions[0];
    proof {
        assert(bit(st.rem, a as int) && (a as int) < k);
        lemma_rate_le_total(g, g.reward_seq()[a as int] as int);
        lemma_rate_mask_clear(g, st.rem, a as u64);
        lemma_rate_mask_bound(g, st.rem & !(1u64 << (a as u64)));
        assert(rate_mask(g, st.rem) >= prv@[a as int] as int);
        assert(tb * rate_mask(g, st.rem) >= (prv@[a as int] as int) * tb) by (nonlinear_arith)
            requires
                tb >= 1,
                rate_mask(g, st.rem) >= (prv@[a as int] as int) >= 0,
        ;
    }
    let da = mdv[st.pos_a][1 + a];
    let db = mdv[st.pos_b][1 + a];
    if da <= db {
        let npa: usize;
        let nea: u64;
        let ga: u64;
        if da + 1 < tb - st.el_a {
            let comp = st.el_a + da + 1;
            proof {
                assert((prv@[a as int] as int) * ((tb - comp) as int) <= g.total_rate() * tb)
                    by (nonlinear_arith)
                    requires
                        0 <= (prv@[a as int] as int) <= g.total_rate(),
                        0 <= ((tb - comp) as int) <= tb as int,
                ;
                assert(g.total_rate() * tb == tb * g.total_rate()) by (nonlinear_arith);
                assert((prv@[a as int] as int) * ((tb - comp) as int) <= (prv@[a as int] as int) * (
                tb as int)) by (nonlinear_arith)
                    requires
                        0 <= (prv@[a as int] as int),
                        0 <= ((tb - comp) as int) <= tb as int,
                ;
            }
            let gain = prv[a] * (tb - comp);
            npa = 1 + a;
            nea = comp;
            ga = gain;
        } else {
            npa = st.pos_a;
            nea = st.el_a;
            ga = 0;
        }
        proof {
            assert((npa, nea, ga) == extend_agent(md, prv@, tb, st.pos_a, st.el_a, a as int));
            assert(ga as int <= (prv@[a as int] as int) * (tb as int)) by (nonlinear_arith)
                requires
                    ga as int == 0 || ga as int <= (prv@[a as int] as int) * (tb as int),
                    0 <= (prv@[a as int] as int),
                    0 <= tb as int,
            ;
        }
        let r = SearchState {
            pos_a: npa,
            pos_b: st.pos_b,
            el_a: nea,
            el_b: st.el_b,
            reward: st.reward + ga,
            rem: 0u64,
        };
        proof {
            assert(r == race_child(md, prv@, tb, st, k as int));
        }
        r
    } else {
        let npb: usize;
        let neb: u64;
        let gb: u64;
        if db + 1 < tb - st.el_b {
            let comp = st.el_b + db + 1;
            proof {
                assert((prv@[a as int] as int) * ((tb - comp) as int) <= g.total_rate() * tb)
                    by (nonlinear_arith)
                    requires
                        0 <= (prv@[a as int] as int) <= g.total_rate(),
                        0 <= ((tb - comp) as int) <= tb as int,
                ;
                assert(g.total_rate() * tb == tb * g.total_rate()) by (nonlinear_arith);
                assert((prv@[a as int] as int) * ((tb - comp) as int) <= (prv@[a as int] as int) * (
                tb as int)) by (nonlinear_arith)
                    requires
                        0 <= (prv@[a as int] as int),
                        0 <= ((tb - comp) as int) <= tb as int,
                ;
            }
            let gain = prv[a] * (tb - comp);
            npb = 1 + a;
            neb = comp;
            gb = gain;
        } else {
            npb = st.pos_b;
            neb = st.el_b;
            gb = 0;
        }
        proof {
            assert((npb, neb, gb) == extend_agent(md, prv@, tb, st.pos_b, st.el_b, a as int));
            assert(gb as int <= (prv@[a as int] as int) * (tb as int)) by (nonlinear_arith)
                requires
                    gb as int == 0 || gb as int <= (prv@[a as int] as int) * (tb as int),
                    0 <= (prv@[a as int] as int),
                    0 <= tb as int,
            ;
        }
        let r = SearchState {
            pos_a: st.pos_a,
            pos_b: npb,
            el_a: st.el_a,
            el_b: neb,
            reward: st.reward + gb,
            rem: 0u64,
        };
        proof {
            assert(r == race_child(md, prv@, tb, st, k as int));
        }
        r
    }
}

/// Expands every state of the frontier into its children, in frontier order.
fn expand_frontier(
    g: &Graph,
    mdv: &Vec<Vec<u64>>,
    prv: &Vec<u64>,
    tb: u64,
    frontier: &Vec<SearchState>,
    k: usize,
    sz: usize,
) -> (r: Vec<SearchState>)
    requires
        k == g.k(),
        k <= 20,
        table_ok(g, table_view(mdv@), k as int),
        prv@ == prates_spec(g),
        tb >= 1,
        g.n() < u64::MAX,
        tb * g.total_rate() <= u64::MAX,
        frontier_inv(g, tb, frontier@, k as int, sz as int),
        sz >= 2,
    ensures
        r@ == expand_all(table_view(mdv@), prv@, tb, frontier@, k as int),
        frontier_inv(g, tb, r@, k as int, sz as int - 2),
{
    let ghost md = table_view(mdv@);
    let mut out: Vec<SearchState> = Vec::new();
    let flen = frontier.len();
    for si in 0..flen
        invariant
            k == g.k(),
            k <= 20,
            table_ok(g, table_view(mdv@), k as int),
            prv@ == prates_spec(g),
            tb >= 1,
            g.n() < u64::MAX,
            tb * g.total_rate() <= u64::MAX,
            frontier_inv(g, tb, frontier@, k as int, sz as int),
            sz >= 2,
            md == table_view(mdv@),
            flen == frontier@.len(),
            out@ == expand_all(md, prv@, tb, frontier@.subrange(0, si as int), k as int),
            frontier_inv(g, tb, out@, k as int, sz as int - 2),
    {
        let st = frontier[si];
        let positions = bits_of(st.rem, k);
        proof {
            lemma_mask_positions(st.rem, k as int);
            lemma_pairs_of_elems(positions@);
        }
        let prs = ordered_pairs(&positions);
        let mut cs: Vec<SearchState> = Vec::new();
        let plen = prs.len();
        for ci in 0..plen
            invariant
                k == g.k(),
                k <= 20,
                table_ok(g, table_view(mdv@), k as int),
                prv@ == prates_spec(g),
                tb >= 1,
                g.n() < u64::MAX,
                tb * g.total_rate() <= u64::MAX,
                md == table_view(mdv@),
                st_inv(g, tb, st, k as int),
                mask_positions(st.rem, k as int).len() == sz as int,
                sz >= 2,
                positions@ == mask_positions(st.rem, k as int),
                prs@ == pairs_of(positions@),
                plen == prs@.len(),
                forall|t: int|
                    0 <= t < prs@.len() ==> positions@.contains((#[trigger] prs@[t]).0)
                        && positions@.contains(prs@[t].1) && prs@[t].0 != prs@[t].1,
                forall|q: int|
                    0 <= q < positions@.len() ==> bit(st.rem, (#[trigger] positions@[q]) as int)
                        && positions@[q] < k,
                cs@.len() == ci,
                forall|t: int|
                    0 <= t < ci ==> (#[trigger] cs@[t]) == pair_child(
                        md,
                        prv@,
                        tb,
                        st,
                        prs@[t].0 as int,
                        prs@[t].1 as int,
                    ) && st_inv(g, tb, cs@[t], k as int) && mask_positions(
                        cs@[t].rem,
                        k as int,
                    ).len() == sz as int - 2,
        {
            let pr_ab = prs[ci];
            proof {
                let q0 = choose|q: int|
                    0 <= q < positions@.len() && (#[trigger] positions@[q]) == prs@[ci as int].0;
                let q1 = choose|q: int|
                    0 <= q < positions@.len() && (#[trigger] positions@[q]) == prs@[ci as int].1;
            }
            let child = make_pair_child(g, mdv, prv, tb, st, pr_ab.0, pr_ab.1, k);
            cs.push(child);
        }
        proof {
            assert(cs@ =~= expand_state(md, prv@, tb, st, k as int));
            assert(frontier@.subrange(0, si as int + 1).drop_last() =~= frontier@.subrange(
                0,
                si as int,
            ));
            assert(frontier@.subrange(0, si as int + 1).last() == st);
        }
        let mut cs2 = cs;
        out.append(&mut cs2);
    }
    proof {
        assert(frontier@.subrange(0, flen as int) =~= frontier@);
    }
    out
}

/// Applies the race step to every state of the frontier.
fn race_frontier(
    g: &Graph,
    mdv: &Vec<Vec<u64>>,
    prv: &Vec<u64>,
    tb: u64,
    frontier: &Vec<SearchState>,
    k: usize,
) -> (r: Vec<SearchState>)
    requires
        k == g.k(),
        k <= 20,
        table_ok(g, table_view(mdv@), k as int),
        prv@ == prates_spec(g),
        tb >= 1,
        g.n() < u64::MAX,
        tb * g.total_rate() <= u64::MAX,
        forall|q: int|
            0 <= q < frontier@.len() ==> st_inv(g, tb, #[trigger] frontier@[q], k as int),
    ensures
        r@ == race_all(table_view(mdv@), prv@, tb, frontier@, k as int),
{
    let ghost md = table_view(mdv@);
    let mut out: Vec<SearchState> = Vec::new();
    let flen = frontier.len();
    for si in 0..flen
        invariant
            k == g.k(),
            k <= 20,
            table_ok(g, table_view(mdv@), k as int),
            prv@ == prates_spec(g),
            tb >= 1,
            g.n() < u64::MAX,
            tb * g.total_rate() <= u64::MAX,
            forall|q: int|
                0 <= q < frontier@.len() ==> st_inv(g, tb, #[trigger] frontier@[q], k as int),
            md == table_view(mdv@),
            flen == frontier@.len(),
            out@ == race_all(md, prv@, tb, frontier@.subrange(0, si as int), k as int),
    {
        let st = frontier[si];
        let child = make_race_child(g, mdv, prv, tb, st, k);
        out.push(child);
        proof {
            assert(frontier@.subrange(0, si as int + 1).drop_last() =~= frontier@.subrange(
                0,
                si as int,
            ));
            assert(frontier@.subrange(0, si as int + 1).last() == st);
        }
    }
    proof {
        assert(frontier@.subrange(0, flen as int) =~= frontier@);
    }
    out
}

/// The largest committed reward over the frontier.
fn max_reward_of(f: &Vec<SearchState>) -> (r: u64)
    ensures
        r as int == max_reward(f@),
{
    let mut cur: u64 = 0;
    let flen = f.len();
    for i in 0..flen
        invariant
            flen == f@.len(),
            cur as int == max_reward(f@.subrange(0, i as int)),
    {
        proof {
            assert(f@.subrange(0, i as int + 1).drop_last() =~= f@.subrange(0, i as int));
            assert(f@.subrange(0, i as int + 1).last() == f@[i as int]);
        }
        let x = f[i];
        if x.reward > cur {
            cur = x.reward;
        }
    }
    proof {
        assert(f@.subrange(0, flen as int) =~= f@);
    }
    cur
}

/// The maximum cumulative reward two cooperating agents can commit within
/// `budget` minutes, both starting at `start`, by bounded beam search over
/// route assignments. The result is heuristic: the beam keeps at most
/// `BEAM_WIDTH` partial solutions per step, so global optimality is not
/// guaranteed.
pub fn plan_dual_agent(g: &Graph, start: u64, budget: u64) -> (r: Result<u64, PlanError>)
    requires
        g.k() <= 20,
        budget * g.total_rate() <= u64::MAX,
        g.n() < u64::MAX,
    ensures
        !inputs_resolve(g, start) ==> r == Err::<u64, PlanError>(PlanError::UnknownNode),
        inputs_resolve(g, start) && budget == 0 ==> r == Err::<u64, PlanError>(
            PlanError::InvalidBudget,
        ),
        inputs_resolve(g, start) && budget >= 1 && !interesting_connected(g, start as usize) ==> r
            == Err::<u64, PlanError>(PlanError::DisconnectedGraph),
        inputs_resolve(g, start) && budget >= 1 && interesting_connected(g, start as usize) ==> (
        r matches Ok(x) && x as int == dual_result(g, start as usize, budget)),
{
    if !validate(g) || start >= g.rates.len() as u64 {
        return Err(PlanError::UnknownNode);
    }
    if budget == 0 {
        return Err(PlanError::InvalidBudget);
    }
    let startu = start as usize;
    let (rn, _posn) = reward_nodes(g);
    let k = rn.len();
    proof {
        lemma_reward_prefix(g, g.n());
        lemma_total_prefix_mono(g, 0, g.n());
        lemma_full_mask_bound(k as u64);
    }
    let mc = match MetricClosure::build(g, startu, &rn) {
        Ok(mc) => mc,
        Err(_) => {
            return Err(PlanError::DisconnectedGraph);
        },
    };
    let ghost md = table_view(mc.dist@);
    proof {
        assert(interesting_seq(g, startu).len() == k + 1);
        assert forall|i: int, j: int| 0 <= i <= k as int && 0 <= j <= k as int implies ((
        #[trigger] md[i][j]) as int) <= g.n() && md[i][j] == md_spec(g, startu)[i][j] by {
            assert(md[i] == mc.dist@[i]@);
            lemma_dist_unique(
                g,
                mc.interesting@[i] as int,
                mc.interesting@[j] as int,
                mc.dist@[i]@[j] as int,
            );
        }
        assert forall|i: int| 0 <= i <= k as int implies md[i] =~= md_spec(g, startu)[i] by {
            assert(md[i] == mc.dist@[i]@);
        }
        assert(md =~= md_spec(g, startu));
        assert(interesting_connected(g, startu)) by {
            assert forall|i: int, j: int|
                0 <= i < interesting_seq(g, startu).len() && 0 <= j < interesting_seq(
                    g,
                    startu,
                ).len() implies #[trigger] crate::paths::pair_connected(
                g,
                interesting_seq(g, startu)[i] as int,
                interesting_seq(g, startu)[j] as int,
            ) by {
                assert(crate::closure::dist_is(
                    g,
                    mc.interesting@[i] as int,
                    mc.interesting@[j] as int,
                    mc.dist@[i]@[j] as int,
                ));
                let p = choose|p: Seq<int>|
                    crate::paths::connects(
                        g,
                        p,
                        mc.interesting@[i] as int,
                        mc.interesting@[j] as int,
                    ) && p.len() - 1 == mc.dist@[i]@[j] as int;
            }
        }
    }
    let mut prv: Vec<u64> = Vec::new();
    for p in 0..k
        invariant
            k == g.k(),
            rn@ == g.reward_seq(),
            prv@.len() == p,
            forall|q: int| 0 <= q < p ==> (#[trigger] prv@[q]) == prates_spec(g)[q],
            forall|q: int| 0 <= q < k ==> ((#[trigger] rn@[q]) as int) < g.n(),
    {
        prv.push(g.rates[rn[p]]);
    }
    proof {
        assert(prv@ =~= prates_spec(g));
    }
    let fullm = (1u64 << (k as u64)) - 1;
    let init = SearchState { pos_a: 0, pos_b: 0, el_a: 0, el_b: 0, reward: 0, rem: fullm };
    proof {
        assert(init == init_state(g));
        lemma_mask_positions_full(k as u64, k as int);
        lemma_rate_mask_bound(g, fullm);
        assert(tb_bound_holds(g, budget, init)) by {
            assert(budget * rate_mask(g, fullm) <= budget * g.total_rate()) by (nonlinear_arith)
                requires
                    budget >= 0,
                    0 <= rate_mask(g, fullm) <= g.total_rate(),
            ;
        }
    }
    let mut frontier: Vec<SearchState> = Vec::new();
    frontier.push(init);
    let mut sz: usize = k;
    proof {
        assert(frontier@ =~= seq![init_state(g)]);
    }
    let ghost target = dual_result(g, startu, budget);
    while sz >= 3
        invariant
            k == g.k(),
            k <= 20,
            table_ok(g, md, k as int),
            md == table_view(mc.dist@),
            md == md_spec(g, startu),
            prv@ == prates_spec(g),
            budget >= 1,
            g.n() < u64::MAX,
            budget * g.total_rate() <= u64::MAX,
            frontier_inv(g, budget, frontier@, k as int, sz as int),
            run_spec(md, prv@, budget, frontier@, sz as nat, k as int) == target,
        decreases sz,
    {
        let children = expand_frontier(g, &mc.dist, &prv, budget, &frontier, k, sz);
        let sorted = sort_by_reward_desc(children);
        proof {
            let cseq = expand_all(md, prv@, budget, frontier@, k as int);
            lemma_sort_desc(cseq);
            assert forall|q: int| 0 <= q < sorted@.len() implies st_inv(
                g,
                budget,
                #[trigger] sorted@[q],
                k as int,
            ) && mask_positions(sorted@[q].rem, k as int).len() == sz as int - 2 by {
                assert(cseq.contains(sorted@[q]));
                let w = choose|w: int| 0 <= w < cseq.len() && (#[trigger] cseq[w]) == sorted@[q];
            }
        }
        let mut pruned = sorted;
        pruned.truncate(BEAM_WIDTH);
        proof {
            assert(pruned@ == prune(sort_desc(expand_all(md, prv@, budget, frontier@, k as int))));
        }
        frontier = pruned;
        sz = sz - 2;
    }
    let result: u64;
    if sz == 0 {
        result = max_reward_of(&frontier);
    } else if sz == 1 {
        let children = race_frontier(g, &mc.dist, &prv, budget, &frontier, k);
        result = max_reward_of(&children);
    } else {
        let children = expand_frontier(g, &mc.dist, &prv, budget, &frontier, k, sz);
        result = max_reward_of(&children);
    }
    Ok(result)
}


} // verus!
