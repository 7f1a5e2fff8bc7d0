use vstd::prelude::*;

verus! {

/// `x` lies in the inclusive range `p.0..=p.1`.
pub open spec fn in_range(x: int, p: (i32, i32)) -> bool {
    p.0 <= x <= p.1
}

/// The inclusive ranges `p.0..=p.1` and `q.0..=q.1` share a point.
pub open spec fn ranges_overlap(p: (i32, i32), q: (i32, i32)) -> bool {
    exists|x: int| #![trigger in_range(x, p), in_range(x, q)] in_range(x, p) && in_range(x, q)
}

/// The closed form of range overlap: both ranges are non-empty and each
/// starts no later than the other ends.
pub open spec fn ranges_overlap_closed(p: (i32, i32), q: (i32, i32)) -> bool {
    p.0 <= p.1 && q.0 <= q.1 && p.0 <= q.1 && q.0 <= p.1
}

/// The two forms agree.
pub proof fn lemma_overlap_closed(p: (i32, i32), q: (i32, i32))
    ensures
        ranges_overlap(p, q) <==> ranges_overlap_closed(p, q),
{
    if ranges_overlap_closed(p, q) {
        let x: int = if p.0 >= q.0 {
            p.0 as int
        } else {
            q.0 as int
        };
        assert(in_range(x, p) && in_range(x, q));
    }
    if ranges_overlap(p, q) {
        let x = choose|x: int| #![trigger in_range(x, p), in_range(x, q)] in_range(x, p)
            && in_range(x, q);
    }
}

/// Whether any two of the inclusive ranges share a point.
pub fn has_overlapping_pairs(pairs: Vec<(i32, i32)>) -> (r: bool)
    ensures
        r == exists|i: int, j: int|
            0 <= i < j < pairs@.len() && ranges_overlap(#[trigger] pairs@[i], #[trigger] pairs@[j]),
{
    let n = pairs.len();
    for i in 0..n
        invariant
            n == pairs@.len(),
            forall|q: int, w: int|
                0 <= q < w < n && q < i ==> !ranges_overlap(
                    #[trigger] pairs@[q],
                    #[trigger] pairs@[w],
                ),
    {
        let p = pairs[i];
        for j in (i + 1)..n
            invariant
                n == pairs@.len(),
                i < n,
                p == pairs@[i as int],
                forall|q: int, w: int|
                    0 <= q < w < n && q < i ==> !ranges_overlap(
                        #[trigger] pairs@[q],
                        #[trigger] pairs@[w],
                    ),
                forall|w: int|
                    i < w < j ==> !ranges_overlap(pairs@[i as int], #[trigger] pairs@[w]),
        {
            let q = pairs[j];
            proof {
                lemma_overlap_closed(p, q);
            }
            if p.0 <= p.1 && q.0 <= q.1 && p.0 <= q.1 && q.0 <= p.1 {
                return true;
            }
        }
    }
    false
}

/// The points of the axis-aligned segment between `t1` and `t2`, inclusive,
/// from the lesser coordinate to the greater. The segment must be horizontal
/// or vertical.
pub fn tuple_int_range_expand(t1: (i32, i32), t2: (i32, i32)) -> (r: Vec<(i32, i32)>)
    requires
        t1.0 == t2.0 || t1.1 == t2.1,
    ensures
        t1.0 != t2.0 ==> r@.len() == crate::rope::magnitude(t2.0 - t1.0) + 1 && forall|i: int|
            0 <= i < r@.len() ==> #[trigger] r@[i] == (
                ((if t1.0 <= t2.0 {
                    t1.0 as int
                } else {
                    t2.0 as int
                } + i) as i32),
                t1.1,
            ),
        t1.0 == t2.0 ==> r@.len() == crate::rope::magnitude(t2.1 - t1.1) + 1 && forall|i: int|
            0 <= i < r@.len() ==> #[trigger] r@[i] == (
                t1.0,
                ((if t1.1 <= t2.1 {
                    t1.1 as int
                } else {
                    t2.1 as int
                } + i) as i32),
            ),
{
    let mut r: Vec<(i32, i32)> = Vec::new();
    if t1.0 != t2.0 {
        let lo: i64 = if t1.0 <= t2.0 {
            t1.0 as i64
        } else {
            t2.0 as i64
        };
        let hi: i64 = if t1.0 <= t2.0 {
            t2.0 as i64
        } else {
            t1.0 as i64
        };
        let count = (hi - lo + 1) as u64;
        for idx in 0..count
            invariant
                lo <= hi,
                -0x8000_0000 <= lo <= 0x7fff_ffff,
                -0x8000_0000 <= hi <= 0x7fff_ffff,
                count == hi - lo + 1,
                r@.len() == idx,
                forall|i: int|
                    0 <= i < idx ==> #[trigger] r@[i] == (((lo + i) as i32), t1.1),
        {
            let x = (lo + idx as i64) as i32;
            r.push((x, t1.1));
        }
    } else {
        let lo: i64 = if t1.1 <= t2.1 {
            t1.1 as i64
        } else {
            t2.1 as i64
        };
        let hi: i64 = if t1.1 <= t2.1 {
            t2.1 as i64
        } else {
            t1.1 as i64
        };
        let count = (hi - lo + 1) as u64;
        for idx in 0..count
            invariant
                lo <= hi,
                -0x8000_0000 <= lo <= 0x7fff_ffff,
                -0x8000_0000 <= hi <= 0x7fff_ffff,
                count == hi - lo + 1,
                r@.len() == idx,
                forall|i: int|
                    0 <= i < idx ==> #[trigger] r@[i] == (t1.0, ((lo + i) as i32)),
        {
            let y = (lo + idx as i64) as i32;
            r.push((t1.0, y));
        }
    }
    r
}

} // verus!
