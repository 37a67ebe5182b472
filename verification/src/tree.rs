//! Laying the entries out as an implicit KD-tree: the partition invariant
//! and the recursive construction that establishes it.

use crate::layout::{
    flip, lemma_lower_bound_kept, lemma_rearranges_chain, lemma_rearranges_self,
    lemma_upper_bound_kept, key, Layout, Point,
};
use crate::select::{select, splits_at};
use vstd::prelude::*;

verus! {

/// The middle position of `[left, right]`: the node of the implicit tree
/// that stands for the range.
pub open spec fn middle(left: int, right: int) -> int {
    (left + right) / 2
}

/// The partition invariant of the implicit tree over `[left, right]`, split
/// along `axis`: a range longer than the leaf threshold is split at its
/// middle position, and both halves are partitioned along the other axis.
/// A range within the threshold is a leaf bucket in any order.
pub open spec fn partitioned(
    points: Seq<Point>,
    node_size: nat,
    left: int,
    right: int,
    axis: int,
) -> bool
    decreases right + 1 - left,
{
    if right - left <= node_size {
        true
    } else {
        let m = middle(left, right);
        &&& splits_at(points, left, m, right, axis)
        &&& partitioned(points, node_size, left, m - 1, flip(axis))
        &&& partitioned(points, node_size, m + 1, right, flip(axis))
    }
}

/// Whether a range is partitioned depends on the points of that range only.
pub proof fn lemma_partitioned_local(
    a: Seq<Point>,
    b: Seq<Point>,
    node_size: nat,
    left: int,
    right: int,
    axis: int,
)
    requires
        partitioned(a, node_size, left, right, axis),
        forall|i: int| left <= i <= right ==> a[i] == b[i],
    ensures
        partitioned(b, node_size, left, right, axis),
    decreases right + 1 - left,
{
    if right - left > node_size {
        let m = middle(left, right);
        assert(a[m] == b[m]);
        lemma_partitioned_local(a, b, node_size, left, m - 1, flip(axis));
        lemma_partitioned_local(a, b, node_size, m + 1, right, flip(axis));
    }
}

/// Reorders the entries of `[left, right]` into the layout of the implicit
/// tree, splitting along `axis` first.
pub fn sort_kd(
    ids: &mut Vec<usize>,
    points: &mut Vec<Point>,
    node_size: u8,
    left: usize,
    right: usize,
    axis: u8,
)
    requires
        old(ids).len() == old(points).len(),
        left <= right < old(ids).len(),
        node_size >= 1,
        axis <= 1,
    ensures
        (Layout { ids: final(ids)@, points: final(points)@ }).rearranges(
            (Layout { ids: old(ids)@, points: old(points)@ }),
            left as int,
            right as int,
        ),
        partitioned(final(points)@, node_size as nat, left as int, right as int, axis as int),
    decreases right - left,
{
    let ghost start = Layout { ids: ids@, points: points@ };
    if right - left <= node_size as usize {
        proof {
            lemma_rearranges_self(start, left as int, right as int);
        }
        return ;
    }
    let m: usize = left + (right - left) / 2;
    select(ids, points, m, left, right, axis as usize);
    let ghost split = Layout { ids: ids@, points: points@ };
    let ghost pivot = key(points@[m as int], axis as int);

    sort_kd(ids, points, node_size, left, m - 1, (axis + 1) % 2);
    let ghost lower = Layout { ids: ids@, points: points@ };
    proof {
        lemma_upper_bound_kept(lower, split, left as int, m - 1, axis as int, pivot);
        lemma_rearranges_chain(lower, split, start, left as int, right as int, left as int, m - 1);
    }

    sort_kd(ids, points, node_size, m + 1, right, (axis + 1) % 2);
    proof {
        let done = Layout { ids: ids@, points: points@ };
        lemma_lower_bound_kept(done, lower, m + 1, right as int, axis as int, pivot);
        lemma_rearranges_chain(done, lower, start, left as int, right as int, m + 1, right as int);
        lemma_partitioned_local(
            lower.points,
            done.points,
            node_size as nat,
            left as int,
            m - 1,
            flip(axis as int),
        );
    }
}

} // verus!
