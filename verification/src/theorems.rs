//! What holds of every built index, stated over the models of the index and
//! of its queries.

use crate::kdbush::{lemma_report_exact, KDBush};
use crate::layout::{flip, key, lemma_same_entries_same_count, Layout, Point};
use crate::query::{dist2, lemma_scan_exact, scan, Region};
use crate::select::splits_at;
use crate::tree::{middle, partitioned};
use vstd::prelude::*;

verus! {

/// The identifiers `0, 1, .., n - 1` in their order.
pub open spec fn identity(n: nat) -> Seq<usize> {
    Seq::new(n, |i: int| i as usize)
}

/// The matches of a naive linear scan over `points`, in the order of the
/// identifiers.
pub open spec fn linear_scan(points: Seq<Point>, region: Region) -> Seq<usize> {
    scan(Layout { ids: identity(points.len()), points }, region, 0, points.len() as int)
}

/// A linear scan reports each identifier of a point in the region, once.
pub proof fn theorem_linear_scan(points: Seq<Point>, region: Region)
    requires
        points.len() <= usize::MAX,
    ensures
        linear_scan(points, region).no_duplicates(),
        forall|id: usize|
            linear_scan(points, region).contains(id) <==> id < points.len() && region.holds(
                points[id as int],
            ),
{
    let s = Layout { ids: identity(points.len()), points };
    let n = points.len() as int;
    lemma_scan_exact(s, region, 0, n);
    assert forall|id: usize|
        linear_scan(points, region).contains(id) <==> id < points.len() && region.holds(
            points[id as int],
        ) by {
        if linear_scan(points, region).contains(id) {
            let i = choose|i: int|
                0 <= i <= n - 1 && (#[trigger] s.ids[i]) == id && region.holds(s.points[i]);
            assert(i == id);
        }
        if id < points.len() && region.holds(points[id as int]) {
            assert(s.ids[id as int] == id);
        }
    }
}

/// A query reports the same set of identifiers as a naive linear scan over
/// the points as given with the same containment test, and reports none of
/// them twice.
pub proof fn theorem_same_as_linear_scan(index: KDBush, region: Region)
    requires
        index.wf(),
    ensures
        index.report(region).no_duplicates(),
        index.report(region).to_set() == linear_scan(index@, region).to_set(),
{
    index.lemma_len();
    lemma_report_exact(index, region);
    theorem_linear_scan(index@, region);
    assert forall|id: usize|
        index.report(region).to_set().contains(id) <==> linear_scan(index@, region).to_set().contains(
            id,
        ) by {
        assert(index.report(region).contains(id) <==> index.matches(region, id));
    }
    assert(index.report(region).to_set() =~= linear_scan(index@, region).to_set());
}

/// A report that holds every identifier below `n` once, and nothing else,
/// has the length `n`.
pub proof fn lemma_full_report_len(hits: Seq<usize>, n: nat)
    requires
        n <= usize::MAX,
        hits.no_duplicates(),
        forall|id: usize| hits.contains(id) <==> id < n,
    ensures
        hits.len() == n,
{
    let held = hits.map_values(|x: usize| x as int);
    assert(held.no_duplicates());
    held.unique_seq_to_set();
    vstd::set_lib::lemma_int_range(0, n as int);
    let all = vstd::set_lib::set_int_range(0, n as int);
    assert forall|x: int| held.to_set().contains(x) <==> all.contains(x) by {
        if held.to_set().contains(x) {
            let i = choose|i: int| 0 <= i < held.len() && held[i] == x;
            assert(hits.contains(hits[i]));
        }
        if all.contains(x) {
            assert(hits.contains(x as usize));
            let i = choose|i: int| 0 <= i < hits.len() && hits[i] == x as usize;
            assert(held[i] == x);
        }
    }
    assert(held.to_set() =~= all);
}

/// A box query whose bounds enclose every point of the index reports every
/// identifier exactly once.
pub proof fn theorem_enclosing_box_reports_all(
    index: KDBush,
    minx: int,
    miny: int,
    maxx: int,
    maxy: int,
)
    requires
        index.wf(),
        forall|id: int|
            0 <= id < index@.len() ==> minx <= (#[trigger] index@[id])[0] <= maxx && miny
                <= index@[id][1] <= maxy,
    ensures
        index.report(Region::Rect { minx, miny, maxx, maxy }).no_duplicates(),
        index.report(Region::Rect { minx, miny, maxx, maxy }).len() == index@.len(),
        forall|id: usize|
            id < index@.len() ==> index.report(Region::Rect { minx, miny, maxx, maxy }).contains(
                id,
            ),
{
    let region = Region::Rect { minx, miny, maxx, maxy };
    index.lemma_len();
    lemma_report_exact(index, region);
    assert forall|id: usize| index.report(region).contains(id) <==> id < index@.len() by {
        assert(index.report(region).contains(id) <==> index.matches(region, id));
        if id < index@.len() {
            assert(region.holds(index@[id as int]));
        }
    }
    lemma_full_report_len(index.report(region), index@.len());
}

/// The keys of `[left, right]` stand in ascending order.
pub open spec fn ascending(points: Seq<Point>, left: int, right: int, axis: int) -> bool {
    forall|i: int, j: int|
        left <= i <= j <= right ==> key(#[trigger] points[i], axis) <= key(
            #[trigger] points[j],
            axis,
        )
}

/// A position that splits its range holds what a full sort would put there:
/// whenever `s` is a reordering of `[left, right]` that position `k` splits,
/// and `sorted` is a reordering of the same entries in ascending order of
/// their keys, both have the same key at `k`.
pub proof fn theorem_split_is_order_statistic(
    s: Layout,
    sorted: Layout,
    before: Layout,
    left: int,
    k: int,
    right: int,
    axis: int,
)
    requires
        before.distinct(),
        s.rearranges(before, left, right),
        sorted.rearranges(before, left, right),
        left <= k <= right,
        splits_at(s.points, left, k, right, axis),
        ascending(sorted.points, left, right, axis),
    ensures
        key(sorted.points[k], axis) == key(s.points[k], axis),
{
    let v = key(s.points[k], axis);
    let w = key(sorted.points[k], axis);
    if w < v {
        let below = |p: Point| key(p, axis) < v;
        assert forall|i: int| left <= i <= k implies below(#[trigger] sorted.points[i]) by {
            assert(key(sorted.points[i], axis) <= key(sorted.points[k], axis));
        }
        lemma_same_entries_same_count(s, sorted, before, left, right, below, left, k, left, k - 1);
    }
    if v < w {
        let above = |p: Point| key(p, axis) > v;
        assert forall|i: int| k <= i <= right implies above(#[trigger] sorted.points[i]) by {
            assert(key(sorted.points[k], axis) <= key(sorted.points[i], axis));
        }
        lemma_same_entries_same_count(
            s,
            sorted,
            before,
            left,
            right,
            above,
            k,
            right,
            k + 1,
            right,
        );
    }
}

/// The region touches `p` with its boundary: a box of which one bound is a
/// coordinate of `p`, or a disc at whose exact radius `p` lies.
pub open spec fn on_boundary(region: Region, p: Point) -> bool {
    match region {
        Region::Rect { minx, miny, maxx, maxy } => {
            &&& minx <= p[0] <= maxx
            &&& miny <= p[1] <= maxy
            &&& (minx == p[0] || maxx == p[0] || miny == p[1] || maxy == p[1])
        },
        Region::Disc { qx, qy, r } => {
            &&& r >= 0
            &&& dist2(p[0] as int, p[1] as int, qx, qy) == r * r
        },
    }
}

/// Bounds are inclusive: a query whose region touches a point with its
/// boundary reports that point.
pub proof fn theorem_boundary_is_included(index: KDBush, region: Region, id: usize)
    requires
        index.wf(),
        id < index@.len(),
        on_boundary(region, index@[id as int]),
    ensures
        index.report(region).contains(id),
{
    lemma_report_exact(index, region);
    assert(index.matches(region, id));
}

/// Queries do not depend on what was asked before: the same query on the
/// same index, appended to the same matches, gives the same matches.
pub proof fn theorem_queries_repeat(
    index: KDBush,
    region: Region,
    before: Seq<usize>,
    once: Seq<usize>,
    again: Seq<usize>,
)
    requires
        once == before + index.report(region),
        again == before + index.report(region),
    ensures
        once == again,
{
}

/// The traversal of `[lo, hi]`, split along `at`, comes to consider the
/// range `[left, right]` split along `axis`.
pub open spec fn considers(
    node_size: nat,
    lo: int,
    hi: int,
    at: int,
    left: int,
    right: int,
    axis: int,
) -> bool
    decreases hi + 1 - lo,
{
    ||| (lo == left && hi == right && at == axis)
    ||| (hi - lo > node_size && {
        let m = middle(lo, hi);
        ||| considers(node_size, lo, m - 1, flip(at), left, right, axis)
        ||| considers(node_size, m + 1, hi, flip(at), left, right, axis)
    })
}

/// The partition invariant holds at every depth: each range that the
/// recursion considers is itself partitioned along its axis.
pub proof fn lemma_considered_is_partitioned(
    points: Seq<Point>,
    node_size: nat,
    lo: int,
    hi: int,
    at: int,
    left: int,
    right: int,
    axis: int,
)
    requires
        partitioned(points, node_size, lo, hi, at),
        considers(node_size, lo, hi, at, left, right, axis),
    ensures
        partitioned(points, node_size, left, right, axis),
    decreases hi + 1 - lo,
{
    if !(lo == left && hi == right && at == axis) {
        let m = middle(lo, hi);
        if considers(node_size, lo, m - 1, flip(at), left, right, axis) {
            lemma_considered_is_partitioned(
                points,
                node_size,
                lo,
                m - 1,
                flip(at),
                left,
                right,
                axis,
            );
        } else {
            lemma_considered_is_partitioned(
                points,
                node_size,
                m + 1,
                hi,
                flip(at),
                left,
                right,
                axis,
            );
        }
    }
}

/// In a built index, at every range that the recursion from the whole index
/// considers and that is longer than the leaf threshold, no key before the
/// middle position is larger than the key at the middle, and no key after it
/// is smaller, along the axis of that range.
pub proof fn theorem_partition_at_every_depth(index: KDBush, left: int, right: int, axis: int)
    requires
        index.wf(),
        considers(index.leaf_size(), 0, index@.len() - 1, 0, left, right, axis),
        right - left > index.leaf_size(),
    ensures
        splits_at(index.layout().points, left, middle(left, right), right, axis),
        partitioned(index.layout().points, index.leaf_size(), left, right, axis),
{
    index.lemma_len();
    lemma_considered_is_partitioned(
        index.layout().points,
        index.leaf_size(),
        0,
        index@.len() - 1,
        0,
        left,
        right,
        axis,
    );
}

} // verus!
