use vstd::prelude::*;

verus! {

/// Bit `p` of the activation mask `m` is set.
pub open spec fn bit(m: u64, p: int) -> bool {
    0 <= p < 64 && (m >> (p as u64)) & 1u64 == 1u64
}

/// The mask with the low `k` bits set: every reward-bearing node active.
pub open spec fn full_mask(k: int) -> u64 {
    ((1u64 << (k as u64)) - 1) as u64
}

/// Setting bit `p` leaves every other bit as it was.
pub proof fn lemma_bit_or(m: u64, p: u64, q: u64)
    requires
        p < 64,
        q < 64,
    ensures
        bit(m | (1u64 << p), q as int) <==> (bit(m, q as int) || p == q),
{
    assert((((m | (1u64 << p)) >> q) & 1u64 == 1u64) <==> (((m >> q) & 1u64 == 1u64) || p == q))
        by (bit_vector)
        requires
            p < 64,
            q < 64,
    ;
}

/// Setting a bit below `k` keeps the mask below `1 << k`.
pub proof fn lemma_or_bound(m: u64, p: u64, k: u64)
    requires
        k <= 63,
        p < k,
        m < (1u64 << k),
    ensures
        (m | (1u64 << p)) < (1u64 << k),
{
    assert((m | (1u64 << p)) < (1u64 << k)) by (bit_vector)
        requires
            k <= 63,
            p < k,
            m < (1u64 << k),
    ;
}

/// Which bits the full mask holds.
pub proof fn lemma_full_mask_bit(k: u64, p: u64)
    requires
        k <= 63,
        p < 64,
    ensures
        bit(full_mask(k as int), p as int) <==> p < k,
{
    assert(((((1u64 << k) - 1) as u64 >> p) & 1u64 == 1u64) <==> p < k) by (bit_vector)
        requires
            k <= 63,
            p < 64,
    ;
}

/// The full mask is the largest mask below `1 << k`, and a shift by at most
/// 63 stays positive.
pub proof fn lemma_full_mask_bound(k: u64)
    requires
        k <= 63,
    ensures
        full_mask(k as int) < (1u64 << k),
        full_mask(0) == 0,
        (1u64 << k) >= 1,
{
    assert((1u64 << k) >= 1 && ((1u64 << 0u64) - 1) as u64 == 0u64 && (((1u64 << k) - 1) as u64)
        < (1u64 << k)) by (bit_vector)
        requires
            k <= 63,
    ;
}

/// Clearing bit `p` leaves every other bit as it was.
pub proof fn lemma_bit_clear(m: u64, p: u64, q: u64)
    requires
        p < 64,
        q < 64,
    ensures
        bit(m & !(1u64 << p), q as int) <==> (bit(m, q as int) && p != q),
{
    assert((((m & !(1u64 << p)) >> q) & 1u64 == 1u64) <==> (((m >> q) & 1u64 == 1u64) && p != q))
        by (bit_vector)
        requires
            p < 64,
            q < 64,
    ;
}

/// Clearing a bit never raises the mask.
pub proof fn lemma_and_le(m: u64, x: u64)
    ensures
        (m & x) <= m,
{
    assert((m & x) <= m) by (bit_vector);
}

/// The set positions of `m` below `i`, in ascending order.
pub open spec fn mask_positions(m: u64, i: int) -> Seq<usize>
    decreases i,
{
    if i <= 0 {
        Seq::empty()
    } else if bit(m, i - 1) {
        mask_positions(m, i - 1).push((i - 1) as usize)
    } else {
        mask_positions(m, i - 1)
    }
}

/// The set positions are exactly the positions whose bit is set, listed in
/// strictly ascending order.
pub proof fn lemma_mask_positions(m: u64, i: int)
    requires
        0 <= i <= 64,
    ensures
        forall|q: int|
            0 <= q < mask_positions(m, i).len()
                ==> bit(m, (#[trigger] mask_positions(m, i)[q]) as int) && mask_positions(m, i)[q]
                < i,
        forall|q: int, w: int|
            0 <= q < w < mask_positions(m, i).len() ==> mask_positions(m, i)[q] < mask_positions(
                m,
                i,
            )[w],
        forall|p: int| 0 <= p < i && bit(m, p) ==> mask_positions(m, i).contains(p as usize),
    decreases i,
{
    if i > 0 {
        lemma_mask_positions(m, i - 1);
        let pre = mask_positions(m, i - 1);
        let cur = mask_positions(m, i);
        if bit(m, i - 1) {
            assert(cur == pre.push((i - 1) as usize));
            assert forall|q: int| 0 <= q < cur.len() implies bit(m, (#[trigger] cur[q]) as int)
                && cur[q] < i by {
                if q < pre.len() {
                    assert(cur[q] == pre[q]);
                } else {
                    assert(cur[q] == (i - 1) as usize);
                }
            }
            assert forall|q: int, w: int| 0 <= q < w < cur.len() implies cur[q] < cur[w] by {
                assert(cur[q] == pre[q]);
                if w < pre.len() {
                    assert(cur[w] == pre[w]);
                } else {
                    assert(cur[w] == (i - 1) as usize);
                }
            }
        } else {
            assert(cur == pre);
        }
        assert forall|p: int| 0 <= p < i && bit(m, p) implies mask_positions(m, i).contains(
            p as usize,
        ) by {
            if p < i - 1 {
                let q = choose|q: int|
                    0 <= q < pre.len() && (#[trigger] pre[q]) == p as usize;
                assert(cur[q] == p as usize);
            } else {
                assert(cur.last() == p as usize);
            }
        }
    }
}

/// Clearing a set bit below `i` removes exactly one listed position.
pub proof fn lemma_mask_positions_clear(m: u64, p: u64, i: int)
    requires
        p < 64,
        0 <= i <= 64,
        bit(m, p as int),
    ensures
        mask_positions(m & !(1u64 << p), i).len() == mask_positions(m, i).len() - if (p as int)
            < i {
            1int
        } else {
            0
        },
    decreases i,
{
    if i > 0 {
        lemma_mask_positions_clear(m, p, i - 1);
        lemma_bit_clear(m, p, (i - 1) as u64);
    }
}

/// Every position below `k` is listed for the full mask.
pub proof fn lemma_mask_positions_full(k: u64, i: int)
    requires
        k <= 63,
        0 <= i <= k,
    ensures
        mask_positions(full_mask(k as int), i).len() == i,
    decreases i,
{
    if i > 0 {
        lemma_mask_positions_full(k, i - 1);
        lemma_full_mask_bit(k, (i - 1) as u64);
    }
}

} // verus!
