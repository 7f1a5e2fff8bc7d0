use vstd::prelude::*;

verus! {

/// The stacks as their mathematical values.
pub open spec fn stacks_view(s: Seq<Vec<char>>) -> Seq<Seq<char>> {
    s.map_values(|v: Vec<char>| v@)
}

/// A move instruction is executable: quantity non-negative, both stacks in
/// range, and enough crates on the source stack.
pub open spec fn move_valid(st: Seq<Seq<char>>, ins: (i32, i32, i32)) -> bool {
    &&& 0 <= ins.0
    &&& 0 <= ins.1 < st.len()
    &&& 0 <= ins.2 < st.len()
    &&& ins.0 <= st[ins.1 as int].len()
}

/// One move: the top `q` crates leave the source stack and land on the
/// target stack in their original order.
pub open spec fn apply_move(st: Seq<Seq<char>>, ins: (i32, i32, i32)) -> Seq<Seq<char>> {
    let q = ins.0 as int;
    let src = ins.1 as int;
    let tgt = ins.2 as int;
    let cut = st[src].len() - q;
    let st1 = st.update(src, st[src].take(cut));
    st1.update(tgt, st1[tgt] + st[src].skip(cut))
}

/// Every instruction of the sequence is executable in turn.
pub open spec fn moves_valid(st: Seq<Seq<char>>, ins: Seq<(i32, i32, i32)>) -> bool
    decreases ins.len(),
{
    ins.len() == 0 || (move_valid(st, ins[0]) && moves_valid(apply_move(st, ins[0]), ins.drop_first()))
}

/// The stacks after executing every instruction in turn.
pub open spec fn apply_moves(st: Seq<Seq<char>>, ins: Seq<(i32, i32, i32)>) -> Seq<Seq<char>>
    decreases ins.len(),
{
    if ins.len() == 0 {
        st
    } else {
        apply_moves(apply_move(st, ins[0]), ins.drop_first())
    }
}

/// Executes the instructions `(quantity, source, target)` in order: each
/// lifts the top `quantity` crates off the source stack and sets them on the
/// target stack in their original order.
pub fn process_instructions(stacks: &mut Vec<Vec<char>>, instructions: Vec<(i32, i32, i32)>)
    requires
        moves_valid(stacks_view(old(stacks)@), instructions@),
    ensures
        stacks_view(final(stacks)@) == apply_moves(stacks_view(old(stacks)@), instructions@),
{
    let ilen = instructions.len();
    let ghost goal = apply_moves(stacks_view(stacks@), instructions@);
    proof {
        assert(instructions@.skip(0) =~= instructions@);
    }
    for ii in 0..ilen
        invariant
            ilen == instructions@.len(),
            moves_valid(stacks_view(stacks@), instructions@.skip(ii as int)),
            goal == apply_moves(stacks_view(stacks@), instructions@.skip(ii as int)),
        decreases ilen - ii,
    {
        proof {
            assert(instructions@.skip(ii as int)[0] == instructions@[ii as int]);
            assert(instructions@.skip(ii as int).drop_first() =~= instructions@.skip(ii as int + 1));
        }
        let (quantity, source, target) = instructions[ii];
        let q = quantity as usize;
        let src = source as usize;
        let tgt = target as usize;
        let ghost pre = stacks_view(stacks@);
        let ghost src0 = stacks@[src as int]@;
        let ghost cut = src0.len() - q;
        let mut moved: Vec<char> = Vec::new();
        for j in 0..q
            invariant
                q <= src0.len(),
                src < stacks@.len(),
                stacks@[src as int]@ =~= src0.take(src0.len() - j),
                moved@.len() == j,
                forall|t: int| 0 <= t < j ==> moved@[t] == src0[src0.len() - 1 - t],
                stacks@.len() == pre.len(),
                forall|w: int|
                    0 <= w < stacks@.len() && w != src ==> (#[trigger] stacks@[w])@ == pre[w],
            decreases q - j,
        {
            let c = stacks[src].pop();
            match c {
                Some(ch) => {
                    moved.push(ch);
                    proof {
                        assert(stacks@[src as int]@ =~= src0.take(src0.len() - j - 1));
                    }
                },
                None => {
                    proof {
                        assert(false);
                    }
                },
            }
        }
        let ghost mid = stacks_view(stacks@);
        let ghost tgt0 = stacks@[tgt as int]@;
        for j in 0..q
            invariant
                q <= src0.len(),
                tgt < stacks@.len(),
                moved@.len() == q,
                forall|t: int| 0 <= t < q ==> moved@[t] == src0[src0.len() - 1 - t],
                stacks@[tgt as int]@ =~= tgt0 + src0.subrange(src0.len() - q, src0.len() - q + j),
                stacks@.len() == mid.len(),
                forall|w: int|
                    0 <= w < stacks@.len() && w != tgt ==> (#[trigger] stacks@[w])@ == mid[w],
            decreases q - j,
        {
            let ch = moved[q - 1 - j];
            stacks[tgt].push(ch);
            proof {
                assert(stacks@[tgt as int]@ =~= tgt0 + src0.subrange(
                    src0.len() - q,
                    src0.len() - q + j + 1,
                ));
            }
        }
        proof {
            let ins = instructions@[ii as int];
            assert(src0.take(cut) =~= src0.take(src0.len() - q));
            assert(stacks_view(stacks@) =~= apply_move(pre, ins)) by {
                let post = apply_move(pre, ins);
                assert(pre[src as int].skip(cut) =~= src0.skip(cut));
                assert(stacks_view(stacks@).len() == post.len());
                assert forall|w: int| 0 <= w < post.len() implies stacks_view(stacks@)[w] == post[w] by {
                    if w == tgt {
                        if tgt == src {
                            assert(post[w] =~= tgt0 + src0.subrange(cut, src0.len() as int));
                        } else {
                            assert(post[w] =~= tgt0 + src0.subrange(cut, src0.len() as int));
                        }
                    } else if w == src {
                        assert(post[w] == src0.take(cut));
                    }
                }
            }
            assert(instructions@.skip(ii as int + 1) =~= instructions@.skip(ii as int).drop_first());
        }
    }
    proof {
        assert(instructions@.skip(ilen as int).len() == 0);
    }
}

} // verus!
