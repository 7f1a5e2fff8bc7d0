use vstd::prelude::*;

verus! {

/// The magnitude of a coordinate difference.
pub open spec fn magnitude(x: int) -> int {
    if x < 0 {
        -x
    } else {
        x
    }
}

/// Where a knot at `(tx, ty)` moves to follow a knot at `(hx, hy)`: it stays
/// put while touching, steps diagonally towards the head when off both axes,
/// and otherwise steps straight along the shared axis.
pub open spec fn follow_spec(hx: int, hy: int, tx: int, ty: int) -> (int, int) {
    if magnitude(hx - tx) <= 1 && magnitude(hy - ty) <= 1 {
        (tx, ty)
    } else if hx != tx && hy != ty {
        (
            if tx < hx {
                tx + 1
            } else {
                tx - 1
            },
            if ty < hy {
                ty + 1
            } else {
                ty - 1
            },
        )
    } else if hx == tx {
        (
            tx,
            if hy > ty {
                ty + 1
            } else {
                ty - 1
            },
        )
    } else {
        (
            if hx > tx {
                tx + 1
            } else {
                tx - 1
            },
            ty,
        )
    }
}

/// One step from `pos` in the direction `dir`, one of `"L"`, `"R"`, `"D"`
/// and `"U"`.
pub fn get_new_pos(pos: (i32, i32), dir: &str) -> (r: (i32, i32))
    requires
        dir@ == "L"@ || dir@ == "R"@ || dir@ == "D"@ || dir@ == "U"@,
        dir@ == "L"@ ==> pos.0 > i32::MIN,
        dir@ == "R"@ ==> pos.0 < i32::MAX,
        dir@ == "D"@ ==> pos.1 > i32::MIN,
        dir@ == "U"@ ==> pos.1 < i32::MAX,
    ensures
        dir@ == "L"@ ==> r == (((pos.0 - 1) as i32, pos.1)),
        dir@ == "R"@ ==> r == (((pos.0 + 1) as i32, pos.1)),
        dir@ == "D"@ ==> r == ((pos.0, (pos.1 - 1) as i32)),
        dir@ == "U"@ ==> r == ((pos.0, (pos.1 + 1) as i32)),
{
    proof {
        reveal_strlit("L");
        reveal_strlit("R");
        reveal_strlit("D");
        reveal_strlit("U");
    }
    let c = dir.get_char(0);
    if c == 'L' {
        (pos.0 - 1, pos.1)
    } else if c == 'R' {
        (pos.0 + 1, pos.1)
    } else if c == 'D' {
        (pos.0, pos.1 - 1)
    } else {
        (pos.0, pos.1 + 1)
    }
}

/// The new position of a follower knot, per the rope-following rule
/// `follow_spec`.
pub fn get_follower_knot_pos(head_pos: (i32, i32), tail_pos: (i32, i32)) -> (r: (i32, i32))
    requires
        -(i32::MAX as int) <= head_pos.0 - tail_pos.0 <= i32::MAX as int,
        -(i32::MAX as int) <= head_pos.1 - tail_pos.1 <= i32::MAX as int,
        i32::MIN < tail_pos.0 < i32::MAX,
        i32::MIN < tail_pos.1 < i32::MAX,
    ensures
        r.0 as int == follow_spec(
            head_pos.0 as int,
            head_pos.1 as int,
            tail_pos.0 as int,
            tail_pos.1 as int,
        ).0,
        r.1 as int == follow_spec(
            head_pos.0 as int,
            head_pos.1 as int,
            tail_pos.0 as int,
            tail_pos.1 as int,
        ).1,
{
    let (head_x, head_y) = head_pos;
    let (tail_x, tail_y) = tail_pos;
    let dx = head_x - tail_x;
    let dy = head_y - tail_y;
    let adx = if dx < 0 {
        -dx
    } else {
        dx
    };
    let ady = if dy < 0 {
        -dy
    } else {
        dy
    };
    proof {
        reveal_strlit("L");
        reveal_strlit("R");
        reveal_strlit("D");
        reveal_strlit("U");
    }
    if adx <= 1 && ady <= 1 {
        // touching: no move necessary
        tail_pos
    } else if head_x != tail_x && head_y != tail_y {
        // diagonal step towards the head
        if tail_x < head_x {
            if tail_y < head_y {
                (tail_x + 1, tail_y + 1)
            } else {
                (tail_x + 1, tail_y - 1)
            }
        } else {
            if tail_y < head_y {
                (tail_x - 1, tail_y + 1)
            } else {
                (tail_x - 1, tail_y - 1)
            }
        }
    } else {
        // follow along the shared axis
        if head_x == tail_x {
            if head_y > tail_y {
                get_new_pos(tail_pos, "U")
            } else {
                get_new_pos(tail_pos, "D")
            }
        } else {
            if head_x > tail_x {
                get_new_pos(tail_pos, "R")
            } else {
                get_new_pos(tail_pos, "L")
            }
        }
    }
}

} // verus!
