use vstd::prelude::*;
use crate::graph::Graph;

verus! {

/// `p` is a walk in `g`: at least one node, every entry a node of the graph,
/// and an edge between each consecutive pair.
pub open spec fn is_path(g: &Graph, p: Seq<int>) -> bool {
    &&& p.len() >= 1
    &&& forall|i: int| 0 <= i < p.len() ==> 0 <= #[trigger] p[i] < g.n()
    &&& forall|i: int| 0 <= i < p.len() - 1 ==> g.edge(#[trigger] p[i], p[i + 1])
}

/// `p` is a walk from `a` to `b`.
pub open spec fn connects(g: &Graph, p: Seq<int>, a: int, b: int) -> bool {
    is_path(g, p) && p.first() == a && p.last() == b
}

/// There is some walk from `a` to `b`.
pub open spec fn pair_connected(g: &Graph, a: int, b: int) -> bool {
    exists|p: Seq<int>| connects(g, p, a, b)
}

/// A node on its own is a walk of length zero.
pub proof fn lemma_path_single(g: &Graph, a: int)
    requires
        0 <= a < g.n(),
    ensures
        connects(g, seq![a], a, a),
{
    let p = seq![a];
    assert(p.len() == 1 && p[0] == a);
}

/// A walk extends along an edge.
pub proof fn lemma_path_push(g: &Graph, p: Seq<int>, a: int, b: int, c: int)
    requires
        connects(g, p, a, b),
        g.edge(b, c),
        0 <= c < g.n(),
    ensures
        connects(g, p.push(c), a, c),
        p.push(c).len() == p.len() + 1,
{
    let q = p.push(c);
    assert forall|i: int| 0 <= i < q.len() - 1 implies g.edge(#[trigger] q[i], q[i + 1]) by {
        if i < p.len() - 1 {
            assert(q[i] == p[i] && q[i + 1] == p[i + 1]);
        } else {
            assert(q[i] == p.last() && q[i + 1] == c);
        }
    }
}

/// Two walks sharing an endpoint concatenate to one walk, whose length is the
/// sum of the two lengths.
pub proof fn lemma_path_concat(g: &Graph, p1: Seq<int>, p2: Seq<int>, a: int, b: int, c: int)
    requires
        connects(g, p1, a, b),
        connects(g, p2, b, c),
    ensures
        connects(g, p1 + p2.drop_first(), a, c),
        (p1 + p2.drop_first()).len() - 1 == (p1.len() - 1) + (p2.len() - 1),
    decreases p2.len(),
{
    if p2.len() == 1 {
        assert(b == c);
        assert(p1 + p2.drop_first() =~= p1);
    } else {
        let b2 = p2[1];
        assert(g.edge(p2[0], p2[1]));
        lemma_path_push(g, p1, a, b, b2);
        let q2 = p2.drop_first();
        assert(connects(g, q2, b2, c)) by {
            assert(q2.len() >= 1 && q2.first() == p2[1] && q2.last() == p2.last());
            assert(forall|i: int| 0 <= i < q2.len() ==> #[trigger] q2[i] == p2[i + 1]);
        }
        lemma_path_concat(g, p1.push(b2), q2, a, b2, c);
        assert(p1 + p2.drop_first() =~= p1.push(b2) + q2.drop_first());
    }
}

/// In a graph with symmetric adjacency, the reverse of a walk is a walk.
pub proof fn lemma_path_reverse(g: &Graph, p: Seq<int>, a: int, b: int)
    requires
        connects(g, p, a, b),
        g.undirected(),
    ensures
        connects(g, p.reverse(), b, a),
        p.reverse().len() == p.len(),
{
    let q = p.reverse();
    assert forall|i: int| 0 <= i < q.len() - 1 implies g.edge(#[trigger] q[i], q[i + 1]) by {
        let j = p.len() - i - 1;
        assert(q[i] == p[j] && q[i + 1] == p[j - 1]);
        assert(g.edge(p[j - 1], p[j]));
    }
    assert(q.first() == p.last() && q.last() == p.first());
}

/// A prefix of a walk is a walk to its last entry.
pub proof fn lemma_path_prefix(g: &Graph, p: Seq<int>, a: int, b: int, j: int)
    requires
        connects(g, p, a, b),
        0 < j <= p.len(),
    ensures
        connects(g, p.subrange(0, j), a, p[j - 1]),
        p.subrange(0, j).len() == j,
{
    let q = p.subrange(0, j);
    assert(q.first() == p[0] && q.last() == p[j - 1]);
}

} // verus!
