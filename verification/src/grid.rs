use vstd::prelude::*;

verus! {

/// The neighbours of a grid point that lie within the bounds `0..=max_x` by
/// `0..=max_y`: left, right, down and up, in that order.
pub fn get_border_points(current_point: &(i32, i32), max_x: &i32, max_y: &i32) -> (r: Vec<
    (i32, i32),
>)
    ensures
        r@ == (if current_point.0 > 0 {
            seq![(((current_point.0 - 1) as i32), current_point.1)]
        } else {
            Seq::<(i32, i32)>::empty()
        }) + (if current_point.0 < *max_x {
            seq![(((current_point.0 + 1) as i32), current_point.1)]
        } else {
            Seq::<(i32, i32)>::empty()
        }) + (if current_point.1 > 0 {
            seq![(current_point.0, ((current_point.1 - 1) as i32))]
        } else {
            Seq::<(i32, i32)>::empty()
        }) + (if current_point.1 < *max_y {
            seq![(current_point.0, ((current_point.1 + 1) as i32))]
        } else {
            Seq::<(i32, i32)>::empty()
        }),
{
    let mut r: Vec<(i32, i32)> = Vec::new();
    if current_point.0 > 0 {
        r.push((current_point.0 - 1, current_point.1));
    }
    if current_point.0 < *max_x {
        r.push((current_point.0 + 1, current_point.1));
    }
    if current_point.1 > 0 {
        r.push((current_point.0, current_point.1 - 1));
    }
    if current_point.1 < *max_y {
        r.push((current_point.0, current_point.1 + 1));
    }
    proof {
        assert(r@ =~= (if current_point.0 > 0 {
            seq![(((current_point.0 - 1) as i32), current_point.1)]
        } else {
            Seq::<(i32, i32)>::empty()
        }) + (if current_point.0 < *max_x {
            seq![(((current_point.0 + 1) as i32), current_point.1)]
        } else {
            Seq::<(i32, i32)>::empty()
        }) + (if current_point.1 > 0 {
            seq![(current_point.0, ((current_point.1 - 1) as i32))]
        } else {
            Seq::<(i32, i32)>::empty()
        }) + (if current_point.1 < *max_y {
            seq![(current_point.0, ((current_point.1 + 1) as i32))]
        } else {
            Seq::<(i32, i32)>::empty()
        }));
    }
    r
}

} // verus!
