//! Partial selection: moving the entry of a given rank to its place without
//! sorting the rest, by partitioning around a pivot again and again.

use crate::layout::{
    key, key_of, lemma_rearranges_chain, lemma_rearranges_self, lemma_rearranges_swap, swap_item,
    Layout, Point,
};
use crate::sample::sample_window;
use vstd::prelude::*;

verus! {

/// Position `k` splits `[left, right]`: no key before it is larger than the
/// key at `k`, and no key after it is smaller.
pub open spec fn splits_at(points: Seq<Point>, left: int, k: int, right: int, axis: int) -> bool {
    &&& forall|i: int| left <= i < k ==> key(#[trigger] points[i], axis) <= key(points[k], axis)
    &&& forall|i: int| k < i <= right ==> key(points[k], axis) <= key(#[trigger] points[i], axis)
}

/// Within `[left, right]`, no key before position `cut` is larger than a key
/// at or after it.
pub open spec fn separated(points: Seq<Point>, left: int, cut: int, right: int, axis: int) -> bool {
    forall|p: int, q: int|
        left <= p < cut <= q <= right ==> key(#[trigger] points[p], axis) <= key(
            #[trigger] points[q],
            axis,
        )
}

/// A separation at `cut` survives a reordering that stays on one side of it.
pub proof fn lemma_separated_kept(
    s: Layout,
    before: Layout,
    left: int,
    cut: int,
    right: int,
    lo: int,
    hi: int,
    axis: int,
)
    requires
        s.rearranges(before, lo, hi),
        0 <= left <= lo,
        hi <= right < s.ids.len(),
        hi < cut || cut <= lo,
        separated(before.points, left, cut, right, axis),
    ensures
        separated(s.points, left, cut, right, axis),
{
    assert forall|p: int, q: int| left <= p < cut <= q <= right implies key(
        #[trigger] s.points[p],
        axis,
    ) <= key(#[trigger] s.points[q], axis) by {
        let p0 = if lo <= p <= hi {
            assert(s.drawn_from(before, p, lo, hi));
            choose|x: int|
                lo <= x <= hi && (#[trigger] before.ids[x]) == s.ids[p] && before.points[x]
                    == s.points[p]
        } else {
            p
        };
        let q0 = if lo <= q <= hi {
            assert(s.drawn_from(before, q, lo, hi));
            choose|x: int|
                lo <= x <= hi && (#[trigger] before.ids[x]) == s.ids[q] && before.points[x]
                    == s.points[q]
        } else {
            q
        };
        assert(before.points[p0] == s.points[p]);
        assert(before.points[q0] == s.points[q]);
        assert(left <= p0 < cut <= q0 <= right);
    }
}

/// Where `pivot` splits `[lo, hi]`, a separation before `lo` and one after
/// `hi` give a separation on either side of `pivot`.
pub proof fn lemma_cut_moves(
    points: Seq<Point>,
    left: int,
    lo: int,
    pivot: int,
    hi: int,
    right: int,
    axis: int,
)
    requires
        left <= lo <= pivot <= hi <= right,
        separated(points, left, lo, right, axis),
        separated(points, left, hi + 1, right, axis),
        splits_at(points, lo, pivot, hi, axis),
    ensures
        separated(points, left, pivot, right, axis),
        separated(points, left, pivot + 1, right, axis),
{
    assert forall|p: int, q: int| left <= p < pivot <= q <= right implies key(
        #[trigger] points[p],
        axis,
    ) <= key(#[trigger] points[q], axis) by {
        if p < lo {
            assert(key(points[p], axis) <= key(points[q], axis));
        } else if q > hi {
            assert(key(points[p], axis) <= key(points[q], axis));
        } else {
            assert(key(points[p], axis) <= key(points[pivot], axis));
            assert(key(points[pivot], axis) <= key(points[q], axis));
        }
    }
    assert forall|p: int, q: int| left <= p < pivot + 1 <= q <= right implies key(
        #[trigger] points[p],
        axis,
    ) <= key(#[trigger] points[q], axis) by {
        if p < lo {
            assert(key(points[p], axis) <= key(points[q], axis));
        } else if q > hi {
            assert(key(points[p], axis) <= key(points[q], axis));
        } else {
            assert(key(points[p], axis) <= key(points[pivot], axis));
            assert(key(points[pivot], axis) <= key(points[q], axis));
        }
    }
}

/// The partition step: takes the key at position `k` as the pivot and
/// reorders the entries of `[left, right]` around it. Returns the position
/// at which the pivot settles: no key before it is larger than the pivot,
/// and no key after it is smaller.
pub fn partition(
    ids: &mut Vec<usize>,
    points: &mut Vec<Point>,
    k: usize,
    left: usize,
    right: usize,
    axis: usize,
) -> (settled: usize)
    requires
        old(ids).len() == old(points).len(),
        left <= k <= right < old(ids).len(),
        left < right,
    ensures
        (Layout { ids: final(ids)@, points: final(points)@ }).rearranges(
            (Layout { ids: old(ids)@, points: old(points)@ }),
            left as int,
            right as int,
        ),
        left <= settled <= right,
        key(final(points)@[settled as int], axis as int) == key(old(points)@[k as int], axis as int),
        splits_at(final(points)@, left as int, settled as int, right as int, axis as int),
{
    let ghost start = Layout { ids: ids@, points: points@ };
    let t: i64 = key_of(&points[k], axis);
    let mut i: usize = left;
    let mut j: usize = right;

    proof {
        lemma_rearranges_self(start, left as int, right as int);
    }
    swap_item(ids, points, left, k);
    proof {
        lemma_rearranges_swap(start, start, left as int, k as int, left as int, right as int);
    }
    if key_of(&points[right], axis) > t {
        let ghost cur = Layout { ids: ids@, points: points@ };
        swap_item(ids, points, left, right);
        proof {
            lemma_rearranges_swap(cur, start, left as int, right as int, left as int, right as int);
        }
    }
    while i < j
        invariant
            ids.len() == points.len(),
            left < right < ids.len(),
            (Layout { ids: ids@, points: points@ }).rearranges(start, left as int, right as int),
            left <= i <= right,
            left <= j <= right,
            i == left ==> j == right && ((key(points@[left as int], axis as int) == t && key(
                points@[right as int],
                axis as int,
            ) <= t) || (key(points@[left as int], axis as int) > t && key(
                points@[right as int],
                axis as int,
            ) == t)),
            i != left ==> j < right && key(points@[left as int], axis as int) <= t <= key(
                points@[right as int],
                axis as int,
            ) && (key(points@[left as int], axis as int) == t || key(
                points@[right as int],
                axis as int,
            ) == t) && t <= key(points@[i as int], axis as int) && key(
                points@[j as int],
                axis as int,
            ) <= t,
            forall|p: int| left <= p < i ==> key(#[trigger] points@[p], axis as int) <= t,
            forall|p: int| j < p <= right ==> t <= key(#[trigger] points@[p], axis as int),
        decreases right - i,
    {
        let ghost cur = Layout { ids: ids@, points: points@ };
        let ghost from = i;
        swap_item(ids, points, i, j);
        proof {
            lemma_rearranges_swap(cur, start, i as int, j as int, left as int, right as int);
        }
        i += 1;
        j -= 1;
        while key_of(&points[i], axis) < t
            invariant
                ids.len() == points.len(),
                left < i <= right < points.len(),
                from < i,
                t <= key(points@[right as int], axis as int),
                forall|p: int| left <= p < i ==> key(#[trigger] points@[p], axis as int) <= t,
            decreases right - i,
        {
            i += 1;
        }
        while key_of(&points[j], axis) > t
            invariant
                ids.len() == points.len(),
                left <= j < right < points.len(),
                key(points@[left as int], axis as int) <= t,
                forall|p: int| j < p <= right ==> t <= key(#[trigger] points@[p], axis as int),
            decreases j - left,
        {
            j -= 1;
        }
    }

    let ghost cur = Layout { ids: ids@, points: points@ };
    if key_of(&points[left], axis) == t {
        swap_item(ids, points, left, j);
        proof {
            lemma_rearranges_swap(cur, start, left as int, j as int, left as int, right as int);
        }
    } else {
        j += 1;
        swap_item(ids, points, j, right);
        proof {
            lemma_rearranges_swap(cur, start, j as int, right as int, left as int, right as int);
        }
    }
    j
}

/// Reorders the entries of `[left, right]` so that position `k` holds the
/// entry that a full sort by the key along `axis` would put there, with no
/// larger key before it and no smaller key after it. A range of more than
/// 600 positions is first narrowed by sampling.
pub fn select(
    ids: &mut Vec<usize>,
    points: &mut Vec<Point>,
    k: usize,
    left: usize,
    right: usize,
    axis: usize,
)
    requires
        old(ids).len() == old(points).len(),
        left <= k <= right < old(ids).len(),
    ensures
        (Layout { ids: final(ids)@, points: final(points)@ }).rearranges(
            (Layout { ids: old(ids)@, points: old(points)@ }),
            left as int,
            right as int,
        ),
        splits_at(final(points)@, left as int, k as int, right as int, axis as int),
    decreases right - left,
{
    let ghost start = Layout { ids: ids@, points: points@ };
    let mut lo: usize = left;
    let mut hi: usize = right;
    proof {
        lemma_rearranges_self(start, left as int, right as int);
    }
    while hi > lo
        invariant
            ids.len() == points.len(),
            (Layout { ids: ids@, points: points@ }).rearranges(start, left as int, right as int),
            left <= lo,
            hi <= right,
            right < ids.len(),
            left <= k <= right,
            (lo <= k <= hi) || (lo == k + 1 && hi == (if k == 0 {
                0
            } else {
                k - 1
            })),
            separated(points@, left as int, lo as int, right as int, axis as int),
            separated(points@, left as int, hi + 1, right as int, axis as int),
        decreases hi + 2 - lo,
    {
        if hi - lo > 600 {
            let ghost wide = Layout { ids: ids@, points: points@ };
            let (inner_lo, inner_hi) = sample_window(k, lo, hi);
            select(ids, points, k, inner_lo, inner_hi, axis);
            proof {
                let narrowed = Layout { ids: ids@, points: points@ };
                lemma_rearranges_chain(
                    narrowed,
                    wide,
                    start,
                    left as int,
                    right as int,
                    inner_lo as int,
                    inner_hi as int,
                );
                lemma_separated_kept(
                    narrowed,
                    wide,
                    left as int,
                    lo as int,
                    right as int,
                    inner_lo as int,
                    inner_hi as int,
                    axis as int,
                );
                lemma_separated_kept(
                    narrowed,
                    wide,
                    left as int,
                    hi + 1,
                    right as int,
                    inner_lo as int,
                    inner_hi as int,
                    axis as int,
                );
            }
        }
        let ghost round = Layout { ids: ids@, points: points@ };
        let j: usize = partition(ids, points, k, lo, hi, axis);
        proof {
            let now = Layout { ids: ids@, points: points@ };
            lemma_rearranges_chain(now, round, start, left as int, right as int, lo as int, hi as int);
            lemma_separated_kept(
                now,
                round,
                left as int,
                lo as int,
                right as int,
                lo as int,
                hi as int,
                axis as int,
            );
            lemma_separated_kept(
                now,
                round,
                left as int,
                hi + 1,
                right as int,
                lo as int,
                hi as int,
                axis as int,
            );
            lemma_cut_moves(
                points@,
                left as int,
                lo as int,
                j as int,
                hi as int,
                right as int,
                axis as int,
            );
        }
        if j <= k {
            lo = j + 1;
        }
        if k <= j {
            hi = if j > 0 {
                j - 1
            } else {
                0
            };
        }
    }
}

} // verus!
