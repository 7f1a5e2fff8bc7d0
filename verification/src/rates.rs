use vstd::prelude::*;
use crate::graph::Graph;
use crate::graph::lemma_reward_prefix;
use crate::graph::lemma_total_prefix_mono;
use crate::mask::bit;
use crate::mask::lemma_bit_or;

verus! {

/// Direct summation of the rates of the active nodes: the sum, over the first
/// `i` reward-bearing nodes, of the rates of those whose bit in `m` is set.
pub open spec fn rate_mask_upto(g: &Graph, m: u64, i: int) -> int
    decreases i,
{
    if i <= 0 {
        0
    } else {
        rate_mask_upto(g, m, i - 1) + if bit(m, i - 1) {
            g.rate(g.reward_seq()[i - 1] as int) as int
        } else {
            0
        }
    }
}

/// The cumulative reward rate of activation state `m`: the sum of the rates
/// of the reward-bearing nodes whose bit is set.
pub open spec fn rate_mask(g: &Graph, m: u64) -> int {
    rate_mask_upto(g, m, g.k())
}

/// The partial sums are non-negative and bounded by the total rate.
pub proof fn lemma_rate_upto_bound(g: &Graph, m: u64, i: int)
    requires
        0 <= i <= g.k(),
    ensures
        0 <= rate_mask_upto(g, m, i),
        i > 0 ==> rate_mask_upto(g, m, i) <= g.total_prefix(g.reward_seq()[i - 1] as int + 1),
    decreases i,
{
    lemma_reward_prefix(g, g.n());
    if i > 0 {
        lemma_rate_upto_bound(g, m, i - 1);
        let v = g.reward_seq()[i - 1] as int;
        assert(g.total_prefix(v + 1) == g.total_prefix(v) + g.rates@[v]);
        if i - 1 > 0 {
            let w = g.reward_seq()[i - 2] as int;
            assert(w < v);
            lemma_total_prefix_mono(g, w + 1, v);
        } else {
            lemma_total_prefix_mono(g, 0, v);
        }
    }
}

/// The cumulative rate of any activation state lies between zero and the sum
/// of all rates.
pub proof fn lemma_rate_mask_bound(g: &Graph, m: u64)
    ensures
        0 <= rate_mask(g, m) <= g.total_rate(),
{
    lemma_rate_upto_bound(g, m, g.k());
    lemma_reward_prefix(g, g.n());
    lemma_total_prefix_mono(g, 0, g.n());
    if g.k() > 0 {
        let v = g.reward_seq()[g.k() - 1] as int;
        lemma_total_prefix_mono(g, v + 1, g.n());
    }
}

/// Activating one more node adds exactly that node's rate; re-activating an
/// active node changes nothing.
pub proof fn lemma_rate_upto_or(g: &Graph, m: u64, p: u64, i: int)
    requires
        p < 64,
        0 <= i <= 64,
    ensures
        rate_mask_upto(g, m | (1u64 << p), i) == rate_mask_upto(g, m, i) + if p < i && !bit(
            m,
            p as int,
        ) {
            g.rate(g.reward_seq()[p as int] as int) as int
        } else {
            0
        },
    decreases i,
{
    if i > 0 {
        lemma_rate_upto_or(g, m, p, i - 1);
        lemma_bit_or(m, p, (i - 1) as u64);
    }
}

/// As `lemma_rate_upto_or`, stated for the whole activation state.
pub proof fn lemma_rate_mask_or(g: &Graph, m: u64, p: u64)
    requires
        p < g.k(),
        g.k() <= 63,
    ensures
        !bit(m, p as int) ==> rate_mask(g, m | (1u64 << p)) == rate_mask(g, m) + g.rate(
            g.reward_seq()[p as int] as int,
        ),
        bit(m, p as int) ==> rate_mask(g, m | (1u64 << p)) == rate_mask(g, m),
{
    lemma_rate_upto_or(g, m, p, g.k());
}

/// Deactivating one node removes exactly that node's rate; clearing an unset
/// bit changes nothing.
pub proof fn lemma_rate_upto_clear(g: &Graph, m: u64, p: u64, i: int)
    requires
        p < 64,
        0 <= i <= 64,
    ensures
        rate_mask_upto(g, m & !(1u64 << p), i) == rate_mask_upto(g, m, i) - if (p as int) < i
            && bit(m, p as int) {
            g.rate(g.reward_seq()[p as int] as int) as int
        } else {
            0
        },
    decreases i,
{
    if i > 0 {
        lemma_rate_upto_clear(g, m, p, i - 1);
        crate::mask::lemma_bit_clear(m, p, (i - 1) as u64);
    }
}

/// As `lemma_rate_upto_clear`, stated for the whole activation state.
pub proof fn lemma_rate_mask_clear(g: &Graph, m: u64, p: u64)
    requires
        (p as int) < g.k(),
        g.k() <= 63,
        bit(m, p as int),
    ensures
        rate_mask(g, m & !(1u64 << p)) == rate_mask(g, m) - g.rate(
            g.reward_seq()[p as int] as int,
        ),
{
    lemma_rate_upto_clear(g, m, p, g.k());
}

/// No single rate exceeds the total rate.
pub proof fn lemma_rate_le_total(g: &Graph, v: int)
    requires
        0 <= v < g.n(),
    ensures
        g.rate(v) as int <= g.total_rate(),
{
    lemma_total_prefix_mono(g, 0, v);
    lemma_total_prefix_mono(g, v + 1, g.n());
    assert(g.total_prefix(v + 1) == g.total_prefix(v) + g.rates@[v]);
}

/// The Reward-Rate Cache: for every subset of the reward-bearing nodes, keyed
/// by its bit-vector representation, the cumulative reward rate of that
/// activation state.
pub struct RateCache {
    /// `table[m]` is the cumulative rate of activation state `m`.
    pub table: Vec<u64>,
}

impl RateCache {
    /// The cache holds one entry per activation state, and every cached sum
    /// equals the direct summation over the active nodes' rates.
    pub open spec fn wf(&self, g: &Graph) -> bool {
        &&& self.table@.len() == (1u64 << (g.k() as u64)) as int
        &&& forall|m: int|
            0 <= m < self.table@.len() ==> (#[trigger] self.table@[m]) as int == rate_mask(
                g,
                m as u64,
            )
    }

    /// Enumerates every subset of the reward-bearing node set and sums the
    /// member rates.
    pub fn build(g: &Graph, rn: &Vec<usize>) -> (r: RateCache)
        requires
            rn@ == g.reward_seq(),
            g.k() <= 20,
            g.total_rate() <= u64::MAX,
        ensures
            r.wf(g),
    {
        let k = rn.len();
        proof {
            lemma_reward_prefix(g, g.n());
            assert((1u64 << (k as u64)) <= 0x100000u64) by (bit_vector)
                requires
                    k <= 20,
            ;
        }
        let size = (1u64 << (k as u64)) as usize;
        let mut table: Vec<u64> = Vec::new();
        for m in 0..size
            invariant
                size == (1u64 << (g.k() as u64)) as int,
                size <= 0x100000,
                k <= 20,
                k == g.k(),
                rn@ == g.reward_seq(),
                g.total_rate() <= u64::MAX,
                table@.len() == m,
                forall|j: int|
                    0 <= j < m ==> (#[trigger] table@[j]) as int == rate_mask(g, j as u64),
        {
            let mv = m as u64;
            let mut sum: u64 = 0;
            for p in 0..k
                invariant
                    size <= 0x100000,
                    k <= 20,
                    k == g.k(),
                    rn@ == g.reward_seq(),
                    g.total_rate() <= u64::MAX,
                    m < size,
                    mv == m as u64,
                    sum as int == rate_mask_upto(g, mv, p as int),
            {
                proof {
                    lemma_reward_prefix(g, g.n());
                    lemma_rate_upto_bound(g, mv, p as int + 1);
                    if p as int + 1 > 0 {
                        let v = g.reward_seq()[p as int] as int;
                        lemma_total_prefix_mono(g, v + 1, g.n());
                    }
                }
                if (mv >> (p as u64)) & 1u64 == 1u64 {
                    sum = sum + g.rates[rn[p]];
                }
            }
            table.push(sum);
        }
        RateCache { table }
    }

    /// The cached cumulative rate of activation state `m`.
    pub fn rate_of(&self, g: &Graph, m: u64) -> (r: u64)
        requires
            self.wf(g),
            g.k() <= 20,
            m < (1u64 << (g.k() as u64)),
        ensures
            r as int == rate_mask(g, m),
    {
        proof {
            let k = g.k() as u64;
            assert((1u64 << k) <= 0x100000u64) by (bit_vector)
                requires
                    k <= 20,
            ;
        }
        self.table[m as usize]
    }
}

} // verus!
