use vstd::prelude::*;

verus! {

/// Why a planning request was rejected.
#[derive(Clone, Copy, Debug, PartialEq, Eq, Structural)]
pub enum PlanError {
    /// An adjacency entry or the start node does not resolve in the graph.
    UnknownNode,
    /// Two interesting nodes have no connecting path.
    DisconnectedGraph,
    /// The time budget is zero.
    InvalidBudget,
}

/// A graph of nodes identified by index. Each node carries an activation
/// reward rate and a list of adjacent node indices.
pub struct Graph {
    /// Reward rate of each node; zero means the node is never activated.
    pub rates: Vec<u64>,
    /// Adjacency lists; edges have unit cost.
    pub adj: Vec<Vec<usize>>,
}

impl Graph {
    /// Number of nodes.
    pub open spec fn n(&self) -> int {
        self.rates@.len() as int
    }

    /// Adjacency list of node `v`.
    pub open spec fn adj_of(&self, v: int) -> Seq<usize> {
        self.adj@[v]@
    }

    /// Reward rate of node `v`.
    pub open spec fn rate(&self, v: int) -> u64 {
        self.rates@[v]
    }

    /// Every adjacency entry resolves to a node of the graph.
    pub open spec fn wf(&self) -> bool {
        &&& self.adj@.len() == self.rates@.len()
        &&& forall|v: int, j: int|
            0 <= v < self.n() && 0 <= j < self.adj_of(v).len()
                ==> (#[trigger] self.adj_of(v)[j]) < self.n()
    }

    /// There is an edge from `a` to `b`.
    pub open spec fn edge(&self, a: int, b: int) -> bool {
        &&& 0 <= a < self.n()
        &&& exists|j: int|
            0 <= j < self.adj_of(a).len() && (#[trigger] self.adj_of(a)[j]) as int == b
    }

    /// The adjacency lists are symmetric: every edge has a reverse edge.
    pub open spec fn undirected(&self) -> bool {
        forall|a: int, b: int| #[trigger] self.edge(a, b) ==> self.edge(b, a)
    }

    /// Node `v` bears a reward.
    pub open spec fn is_reward(&self, v: int) -> bool {
        0 <= v < self.n() && self.rate(v) > 0
    }

    /// The reward-bearing nodes among the first `i`, in ascending order.
    pub open spec fn reward_prefix(&self, i: int) -> Seq<usize>
        decreases i,
    {
        if i <= 0 {
            Seq::empty()
        } else if self.rates@[i - 1] > 0 {
            self.reward_prefix(i - 1).push((i - 1) as usize)
        } else {
            self.reward_prefix(i - 1)
        }
    }

    /// All reward-bearing nodes, in ascending order.
    pub open spec fn reward_seq(&self) -> Seq<usize> {
        self.reward_prefix(self.n())
    }

    /// How many nodes bear a reward.
    pub open spec fn k(&self) -> int {
        self.reward_seq().len() as int
    }

    /// The position of reward-bearing node `v` in the ordered list of
    /// reward-bearing nodes.
    pub open spec fn pos_of(&self, v: int) -> int {
        choose|p: int| 0 <= p < self.k() && self.reward_seq()[p] as int == v
    }

    /// Sum of the rates of the first `i` nodes.
    pub open spec fn total_prefix(&self, i: int) -> int
        decreases i,
    {
        if i <= 0 {
            0
        } else {
            self.total_prefix(i - 1) + self.rates@[i - 1]
        }
    }

    /// Sum of all reward rates.
    pub open spec fn total_rate(&self) -> int {
        self.total_prefix(self.n())
    }
}

/// Facts about the ordered list of reward-bearing nodes: its entries are
/// exactly the reward-bearing nodes among the first `i`, listed in strictly
/// ascending order.
pub proof fn lemma_reward_prefix(g: &Graph, i: int)
    requires
        0 <= i <= g.n(),
    ensures
        forall|p: int|
            0 <= p < g.reward_prefix(i).len()
                ==> g.is_reward((#[trigger] g.reward_prefix(i)[p]) as int)
                    && g.reward_prefix(i)[p] < i,
        forall|p: int, q: int|
            0 <= p < q < g.reward_prefix(i).len()
                ==> g.reward_prefix(i)[p] < g.reward_prefix(i)[q],
        forall|v: int| 0 <= v < i && g.rates@[v] > 0 ==> g.reward_prefix(i).contains(v as usize),
    decreases i,
{
    assert(g.rates.len() as int == g.n());
    if i > 0 {
        lemma_reward_prefix(g, i - 1);
        let pre = g.reward_prefix(i - 1);
        let cur = g.reward_prefix(i);
        if g.rates@[i - 1] > 0 {
            assert(cur == pre.push((i - 1) as usize));
            assert forall|p: int| 0 <= p < cur.len() implies g.is_reward(cur[p] as int) && cur[p]
                < i by {
                if p < pre.len() {
                    assert(cur[p] == pre[p]);
                } else {
                    assert(cur[p] == (i - 1) as usize);
                }
            }
            assert forall|p: int, q: int| 0 <= p < q < cur.len() implies cur[p] < cur[q] by {
                assert(cur[p] == pre[p]);
                if q < pre.len() {
                    assert(cur[q] == pre[q]);
                } else {
                    assert(cur[q] == (i - 1) as usize);
                }
            }
        } else {
            assert(cur == pre);
        }
        assert forall|v: int| 0 <= v < i && g.rates@[v] > 0 implies g.reward_prefix(
            i,
        ).contains(v as usize) by {
            if v < i - 1 {
                let p = choose|p: int|
                    0 <= p < g.reward_prefix(i - 1).len() && (#[trigger] g.reward_prefix(i - 1)[p])
                        == v as usize;
                assert(g.reward_prefix(i)[p] == v as usize);
            } else {
                assert(g.reward_prefix(i).last() == v as usize);
            }
        }
    }
}

/// The position of a reward-bearing node is well defined: it lies in range,
/// resolves back to the node, and no other position does.
pub proof fn lemma_pos_of(g: &Graph, v: int)
    requires
        g.is_reward(v),
    ensures
        0 <= g.pos_of(v) < g.k(),
        g.reward_seq()[g.pos_of(v)] as int == v,
        forall|q: int| 0 <= q < g.k() && g.reward_seq()[q] as int == v ==> q == g.pos_of(v),
{
    lemma_reward_prefix(g, g.n());
    assert(g.rates.len() as int == g.n());
    assert(g.reward_seq().contains(v as usize));
    let q = choose|q: int|
        0 <= q < g.reward_seq().len() && (#[trigger] g.reward_seq()[q]) == v as usize;
    assert(0 <= q < g.k() && g.reward_seq()[q] as int == v);
    assert(0 <= g.pos_of(v) < g.k() && g.reward_seq()[g.pos_of(v)] as int == v);
}

/// Whether every adjacency entry of `g` resolves to a node.
pub fn validate(g: &Graph) -> (r: bool)
    ensures
        r == g.wf(),
{
    if g.adj.len() != g.rates.len() {
        return false;
    }
    let n = g.rates.len();
    for v in 0..n
        invariant
            n == g.rates@.len(),
            g.adj@.len() == n,
            forall|a: int, j: int|
                0 <= a < v && 0 <= j < g.adj_of(a).len() ==> (#[trigger] g.adj_of(a)[j]) < n,
    {
        let list = &g.adj[v];
        let len = list.len();
        for j in 0..len
            invariant
                n == g.rates@.len(),
                g.adj@.len() == n,
                v < n,
                len == g.adj_of(v as int).len(),
                list@ == g.adj_of(v as int),
                forall|a: int, jj: int|
                    0 <= a < v && 0 <= jj < g.adj_of(a).len() ==> (#[trigger] g.adj_of(a)[jj]) < n,
                forall|jj: int| 0 <= jj < j ==> (#[trigger] g.adj_of(v as int)[jj]) < n,
        {
            if list[j] >= n {
                return false;
            }
        }
    }
    true
}

/// The reward-bearing nodes in ascending order, with, for every node, its
/// position in that list.
pub fn reward_nodes(g: &Graph) -> (r: (Vec<usize>, Vec<Option<usize>>))
    ensures
        r.0@ == g.reward_seq(),
        r.1@.len() == g.n(),
        forall|v: int| 0 <= v < g.n() ==> ((#[trigger] r.1@[v]) is Some <==> g.is_reward(v)),
        forall|v: int|
            0 <= v < g.n() && g.is_reward(v) ==> #[trigger] r.1@[v] == Some(
                g.pos_of(v) as usize,
            ),
{
    let n = g.rates.len();
    let mut list: Vec<usize> = Vec::new();
    let mut posn: Vec<Option<usize>> = Vec::new();
    for v in 0..n
        invariant
            n == g.rates@.len(),
            list@ == g.reward_prefix(v as int),
            posn@.len() == v,
            forall|w: int| 0 <= w < v ==> ((#[trigger] posn@[w]) is Some <==> g.rates@[w] > 0),
            forall|w: int|
                0 <= w < v && g.rates@[w] > 0 ==> ((#[trigger] posn@[w]) is Some && (posn@[w]->Some_0 as int)
                    < g.reward_prefix(v as int).len() && g.reward_prefix(v as int)[posn@[w]->Some_0 as int]
                    == w as usize),
    {
        proof {
            lemma_reward_prefix(g, v as int + 1);
        }
        if g.rates[v] > 0 {
            posn.push(Some(list.len()));
            list.push(v);
        } else {
            posn.push(None);
        }
    }
    proof {
        lemma_reward_prefix(g, n as int);
        assert forall|v: int| 0 <= v < g.n() && g.is_reward(v) implies #[trigger] posn@[v] == Some(
            g.pos_of(v) as usize,
        ) by {
            lemma_pos_of(g, v);
            let p = posn@[v]->Some_0;
            assert(g.reward_seq()[p as int] == v as usize);
        }
    }
    (list, posn)
}

/// Sum of all reward rates, as used for overflow bounds.
pub fn total_rate_of(g: &Graph) -> (r: Option<u64>)
    ensures
        r matches Some(t) ==> t as int == g.total_rate(),
        r is None ==> g.total_rate() > u64::MAX,
{
    let n = g.rates.len();
    let mut sum: u64 = 0;
    for v in 0..n
        invariant
            n == g.rates@.len(),
            sum as int == g.total_prefix(v as int),
    {
        let rate = g.rates[v];
        if sum > u64::MAX - rate {
            proof {
                lemma_total_prefix_mono(g, v as int + 1, g.n());
            }
            return None;
        }
        sum = sum + rate;
    }
    Some(sum)
}

/// The prefix sums of the rates grow with the prefix.
pub proof fn lemma_total_prefix_mono(g: &Graph, i: int, j: int)
    requires
        0 <= i <= j,
    ensures
        g.total_prefix(i) <= g.total_prefix(j),
    decreases j,
{
    if i < j {
        lemma_total_prefix_mono(g, i, j - 1);
    }
}

} // verus!
