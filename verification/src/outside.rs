use vstd::prelude::*;
use itertools::Itertools;
use crate::dual::SearchState;
use crate::dual::sort_desc;

verus! {

/// The ordered pairs `(s[i], s[j])` with `j != i`, row `i` of the pair
/// enumeration: `j` runs upward from `j0`.
pub open spec fn pairs_row_from(s: Seq<usize>, i: int, j0: int) -> Seq<(usize, usize)>
    decreases s.len() - j0,
{
    if 0 <= i < s.len() && 0 <= j0 < s.len() {
        if j0 == i {
            pairs_row_from(s, i, j0 + 1)
        } else {
            seq![(s[i], s[j0])] + pairs_row_from(s, i, j0 + 1)
        }
    } else {
        Seq::empty()
    }
}

/// All ordered pairs of distinct positions of `s`, first position running
/// upward from `i0`, in lexicographic position order.
pub open spec fn pairs_from(s: Seq<usize>, i0: int) -> Seq<(usize, usize)>
    decreases s.len() - i0,
{
    if 0 <= i0 < s.len() {
        pairs_row_from(s, i0, 0) + pairs_from(s, i0 + 1)
    } else {
        Seq::empty()
    }
}

/// Every ordered pair of entries of `s` at distinct positions, in
/// lexicographic position order.
pub open spec fn pairs_of(s: Seq<usize>) -> Seq<(usize, usize)> {
    pairs_from(s, 0)
}

proof fn lemma_pairs_row_elems(s: Seq<usize>, i: int, j0: int)
    requires
        0 <= i < s.len(),
        forall|q: int, w: int| 0 <= q < w < s.len() ==> s[q] < s[w],
    ensures
        forall|t: int|
            0 <= t < pairs_row_from(s, i, j0).len() ==> s.contains(
                (#[trigger] pairs_row_from(s, i, j0)[t]).0,
            ) && s.contains(pairs_row_from(s, i, j0)[t].1) && pairs_row_from(s, i, j0)[t].0
                != pairs_row_from(s, i, j0)[t].1,
    decreases s.len() - j0,
{
    if 0 <= j0 < s.len() {
        lemma_pairs_row_elems(s, i, j0 + 1);
        let row = pairs_row_from(s, i, j0);
        let rest = pairs_row_from(s, i, j0 + 1);
        assert forall|t: int| 0 <= t < row.len() implies s.contains((#[trigger] row[t]).0)
            && s.contains(row[t].1) && row[t].0 != row[t].1 by {
            if j0 == i {
                assert(row[t] == rest[t]);
            } else if t == 0 {
                assert(row[t] == (s[i], s[j0]));
                assert(s[i] != s[j0]);
                assert(s.contains(s[i]) && s.contains(s[j0]));
            } else {
                assert(row[t] == rest[t - 1]);
            }
        }
    }
}

proof fn lemma_pairs_from_elems(s: Seq<usize>, i0: int)
    requires
        forall|q: int, w: int| 0 <= q < w < s.len() ==> s[q] < s[w],
    ensures
        forall|t: int|
            0 <= t < pairs_from(s, i0).len() ==> s.contains(
                (#[trigger] pairs_from(s, i0)[t]).0,
            ) && s.contains(pairs_from(s, i0)[t].1) && pairs_from(s, i0)[t].0 != pairs_from(
                s,
                i0,
            )[t].1,
    decreases s.len() - i0,
{
    if 0 <= i0 < s.len() {
        lemma_pairs_row_elems(s, i0, 0);
        lemma_pairs_from_elems(s, i0 + 1);
        let row = pairs_row_from(s, i0, 0);
        let rest = pairs_from(s, i0 + 1);
        assert(forall|t: int|
            0 <= t < row.len() ==> #[trigger] pairs_from(s, i0)[t] == row[t]);
        assert(forall|t: int|
            row.len() <= t < pairs_from(s, i0).len() ==> #[trigger] pairs_from(s, i0)[t] == rest[t
                - row.len()]);
    }
}

/// Both members of every listed pair are entries of `s`, and they differ when
/// the entries of `s` are strictly ascending.
pub proof fn lemma_pairs_of_elems(s: Seq<usize>)
    requires
        forall|q: int, w: int| 0 <= q < w < s.len() ==> s[q] < s[w],
    ensures
        forall|t: int|
            0 <= t < pairs_of(s).len() ==> s.contains((#[trigger] pairs_of(s)[t]).0) && s.contains(
                pairs_of(s)[t].1,
            ) && pairs_of(s)[t].0 != pairs_of(s)[t].1,
{
    lemma_pairs_from_elems(s, 0);
}

/// Relies on itertools' `permutations(2)`: it yields the ordered pairs of
/// entries at distinct positions, in lexicographic position order.
#[verifier::external_body]
pub(crate) fn ordered_pairs(v: &Vec<usize>) -> (r: Vec<(usize, usize)>)
    ensures
        r@ == pairs_of(v@),
{
    v.iter().cloned().permutations(2).map(|p| (p[0], p[1])).collect()
}

/// Relies on itertools' `sorted_by_key`, a stable sort: sorting by the
/// reversed reward key is the stable descending-by-reward sort, which the
/// stable insertion sort `sort_desc` defines uniquely.
#[verifier::external_body]
pub(crate) fn sort_by_reward_desc(v: Vec<SearchState>) -> (r: Vec<SearchState>)
    ensures
        r@ == sort_desc(v@),
{
    v.into_iter().sorted_by_key(|s| core::cmp::Reverse(s.reward)).collect()
}

} // verus!
