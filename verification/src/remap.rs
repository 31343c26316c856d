//! Position remapping after arena compaction.
//!
//! When an arena is compacted, every index held elsewhere — in the entry
//! tables and in the edge lists of both node kinds — must be rewritten
//! through the reported moves.

use vstd::prelude::*;

verus! {

/// The position a value sits at after applying a compaction report: its
/// move's destination if it moved, its old position otherwise.
pub open spec fn remap_spec(moves: Seq<(usize, usize)>, i: int) -> int {
    if exists|k: int| 0 <= k < moves.len() && ((#[trigger] moves[k]).0 as int) == i {
        let k = choose|k: int| 0 <= k < moves.len() && ((#[trigger] moves[k]).0 as int) == i;
        moves[k].1 as int
    } else {
        i
    }
}

/// Looks a position up in a compaction report.
pub(crate) fn remap_pos(moves: &Vec<(usize, usize)>, i: usize) -> (r: usize)
    requires
        forall|j: int, k: int|
            #![trigger moves@[j], moves@[k]]
            0 <= j < k < moves@.len() ==> moves@[j].0 != moves@[k].0,
    ensures
        (r as int) == remap_spec(moves@, i as int),
{
    let n = moves.len();
    let mut k: usize = 0;
    while k < n
        invariant
            n == moves@.len(),
            k <= n,
            forall|j: int, k2: int|
                #![trigger moves@[j], moves@[k2]]
                0 <= j < k2 < moves@.len() ==> moves@[j].0 != moves@[k2].0,
            forall|j: int| 0 <= j < k ==> ((#[trigger] moves@[j]).0 as int) != i as int,
        decreases n - k,
    {
        let (from, to) = moves[k];
        if from == i {
            proof {
                assert(moves@[k as int] == (from, to));
                let kk = choose|kk: int|
                    0 <= kk < moves@.len() && ((#[trigger] moves@[kk]).0 as int) == i as int;
                assert(kk == k);
            }
            return to;
        }
        k = k + 1;
    }
    proof {
        if exists|kk: int| 0 <= kk < moves@.len() && ((#[trigger] moves@[kk]).0 as int) == i as int {
            let kk = choose|kk: int|
                0 <= kk < moves@.len() && ((#[trigger] moves@[kk]).0 as int) == i as int;
            assert(false);
        }
    }
    i
}

/// Rewrites every position in a list through a compaction report.
pub(crate) fn remap_list(list: &Vec<usize>, moves: &Vec<(usize, usize)>) -> (r: Vec<usize>)
    requires
        forall|j: int, k: int|
            #![trigger moves@[j], moves@[k]]
            0 <= j < k < moves@.len() ==> moves@[j].0 != moves@[k].0,
        forall|k: int| 0 <= k < moves@.len() ==> ((#[trigger] moves@[k]).1 as int) >= 0,
    ensures
        r@.len() == list@.len(),
        forall|l: int|
            0 <= l < list@.len() ==> ((#[trigger] r@[l]) as int) == remap_spec(
                moves@,
                list@[l] as int,
            ),
{
    let mut r: Vec<usize> = Vec::new();
    let mut l: usize = 0;
    while l < list.len()
        invariant
            l <= list@.len(),
            r@.len() == l,
            forall|j: int, k: int|
                #![trigger moves@[j], moves@[k]]
                0 <= j < k < moves@.len() ==> moves@[j].0 != moves@[k].0,
            forall|l2: int|
                0 <= l2 < l ==> ((#[trigger] r@[l2]) as int) == remap_spec(
                    moves@,
                    list@[l2] as int,
                ),
        decreases list@.len() - l,
    {
        let x = remap_pos(moves, list[l]);
        r.push(x);
        l = l + 1;
    }
    r
}

/// Some live position of `slots` lands on `i` under the report.
pub open spec fn covered<T>(moves: Seq<(usize, usize)>, slots: Seq<Option<T>>, i: int) -> bool {
    exists|p: int|
        0 <= p < slots.len() && (#[trigger] slots[p]) is Some && remap_spec(moves, p) == i
}

/// A sequence of slots stores at most one value per slot.
proof fn lemma_contents_len_le<T>(s: Seq<Option<T>>)
    ensures
        crate::arena::contents(s).len() <= s.len(),
    decreases s.len(),
{
    if s.len() > 0 {
        lemma_contents_len_le(s.drop_last());
    }
}

/// What a compaction report means for positions: every live value of `pre`
/// sits at its remapped position in `post`, and distinct live positions stay
/// distinct.
pub proof fn lemma_remap_positions<T>(
    pre: Seq<Option<T>>,
    post: Seq<Option<T>>,
    moves: Seq<(usize, usize)>,
)
    requires
        crate::arena::compact_spec(pre, post, moves),
    ensures
        forall|p: int|
            0 <= p < pre.len() && (#[trigger] pre[p]) is Some ==> {
                let q = remap_spec(moves, p);
                &&& 0 <= q < post.len()
                &&& post[q] == pre[p]
            },
        forall|p1: int, p2: int|
            #![trigger pre[p1], pre[p2]]
            0 <= p1 < pre.len() && 0 <= p2 < pre.len() && pre[p1] is Some && pre[p2] is Some && p1
                != p2 ==> remap_spec(moves, p1) != remap_spec(moves, p2),
        forall|q: int|
            0 <= q < post.len() && (#[trigger] post[q]) is Some ==> covered(moves, pre, q),
{
    lemma_contents_len_le(pre);
    assert(post.len() <= pre.len());
    assert forall|p: int|
        0 <= p < pre.len() && (#[trigger] pre[p]) is Some implies {
        let q = remap_spec(moves, p);
        &&& 0 <= q < post.len()
        &&& post[q] == pre[p]
    } by {
        if exists|k: int| 0 <= k < moves.len() && ((#[trigger] moves[k]).0 as int) == p {
            let k = choose|k: int| 0 <= k < moves.len() && ((#[trigger] moves[k]).0 as int) == p;
            assert(post[moves[k].1 as int] == pre[moves[k].0 as int]);
        } else {
            if p >= post.len() {
                let k = choose|k: int|
                    0 <= k < moves.len() && ((#[trigger] moves[k]).0 as int) == p;
                assert(false);
            }
            assert(post[p] == pre[p]);
        }
    }
    assert forall|p1: int, p2: int|
        #![trigger pre[p1], pre[p2]]
        0 <= p1 < pre.len() && 0 <= p2 < pre.len() && pre[p1] is Some && pre[p2] is Some && p1
        != p2 implies remap_spec(moves, p1) != remap_spec(moves, p2) by {
        let q1 = remap_spec(moves, p1);
        let q2 = remap_spec(moves, p2);
        if exists|k: int| 0 <= k < moves.len() && ((#[trigger] moves[k]).0 as int) == p1 {
            let k1 = choose|k1: int|
                0 <= k1 < moves.len() && ((#[trigger] moves[k1]).0 as int) == p1;
            if exists|k: int| 0 <= k < moves.len() && ((#[trigger] moves[k]).0 as int) == p2 {
                let k2 = choose|k2: int|
                    0 <= k2 < moves.len() && ((#[trigger] moves[k2]).0 as int) == p2;
                assert(k1 != k2);
                assert(moves[k1].1 != moves[k2].1) by {
                    if k1 < k2 {
                        assert(moves[k1].1 < moves[k2].1);
                    } else {
                        assert(moves[k2].1 < moves[k1].1);
                    }
                }
            } else {
                // p2 stayed where it was; a move target was a tombstone.
                assert(q2 == p2);
                assert(pre[moves[k1].1 as int] is None);
            }
        } else {
            assert(q1 == p1);
            if exists|k: int| 0 <= k < moves.len() && ((#[trigger] moves[k]).0 as int) == p2 {
                let k2 = choose|k2: int|
                    0 <= k2 < moves.len() && ((#[trigger] moves[k2]).0 as int) == p2;
                assert(pre[moves[k2].1 as int] is None);
            }
        }
    }
    assert forall|q: int|
        0 <= q < post.len() && (#[trigger] post[q]) is Some implies covered(moves, pre, q) by {
        if pre[q] is Some {
            assert(remap_spec(moves, q) == q) by {
                if exists|k: int| 0 <= k < moves.len() && ((#[trigger] moves[k]).0 as int) == q {
                    let k = choose|k: int|
                        0 <= k < moves.len() && ((#[trigger] moves[k]).0 as int) == q;
                    assert(post.len() <= moves[k].0);
                    assert(false);
                }
            }
            assert(0 <= q < pre.len() && pre[q] is Some && remap_spec(moves, q) == q);
        } else {
            let k = choose|k: int|
                0 <= k < moves.len() && ((#[trigger] moves[k]).1 as int) == q;
            let p = moves[k].0 as int;
            assert(pre[p] is Some);
            assert(remap_spec(moves, p) == moves[k].1 as int) by {
                let k2 = choose|k2: int|
                    0 <= k2 < moves.len() && ((#[trigger] moves[k2]).0 as int) == p;
                assert(k2 == k) by {
                    if k2 < k {
                        assert(moves[k2].0 > moves[k].0);
                    } else if k2 > k {
                        assert(moves[k].0 > moves[k2].0);
                    }
                }
            }
            assert(0 <= p < pre.len() && pre[p] is Some && remap_spec(moves, p) == q);
        }
    }
}

} // verus!
