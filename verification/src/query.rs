//! What a query is, the order in which the traversal of the implicit tree
//! reports its matches, and the proof that on a partitioned range the
//! traversal reports exactly the matching entries, each once.

use crate::layout::{flip, key, Layout, Point};
use crate::tree::{middle, partitioned};
use vstd::prelude::*;

verus! {

/// The squared Euclidean distance between `(ax, ay)` and `(bx, by)`.
pub open spec fn dist2(ax: int, ay: int, bx: int, by: int) -> int {
    (ax - bx) * (ax - bx) + (ay - by) * (ay - by)
}

/// The region that a query asks for.
pub enum Region {
    /// The axis-aligned box `[minx, maxx] x [miny, maxy]`, bounds included.
    Rect { minx: int, miny: int, maxx: int, maxy: int },
    /// The disc around `(qx, qy)` with radius `r`, boundary included. A
    /// negative radius describes the empty region.
    Disc { qx: int, qy: int, r: int },
}

impl Region {
    /// The containment test: `p` lies in the region.
    pub open spec fn holds(self, p: Point) -> bool {
        match self {
            Region::Rect { minx, miny, maxx, maxy } => {
                minx <= p[0] <= maxx && miny <= p[1] <= maxy
            },
            Region::Disc { qx, qy, r } => {
                r >= 0 && dist2(p[0] as int, p[1] as int, qx, qy) <= r * r
            },
        }
    }

    /// The pruning test towards smaller keys: the region extends to the key
    /// of the node `mid` along `axis`, or below it.
    pub open spec fn reaches_left(self, mid: Point, axis: int) -> bool {
        match self {
            Region::Rect { minx, miny, maxx, maxy } => {
                if axis == 0 {
                    minx <= mid[0]
                } else {
                    miny <= mid[1]
                }
            },
            Region::Disc { qx, qy, r } => {
                r >= 0 && if axis == 0 {
                    qx - r <= mid[0]
                } else {
                    qy - r <= mid[1]
                }
            },
        }
    }

    /// The pruning test towards larger keys: the region extends to the key
    /// of the node `mid` along `axis`, or above it.
    pub open spec fn reaches_right(self, mid: Point, axis: int) -> bool {
        match self {
            Region::Rect { minx, miny, maxx, maxy } => {
                if axis == 0 {
                    maxx >= mid[0]
                } else {
                    maxy >= mid[1]
                }
            },
            Region::Disc { qx, qy, r } => {
                r >= 0 && if axis == 0 {
                    qx + r >= mid[0]
                } else {
                    qy + r >= mid[1]
                }
            },
        }
    }
}

/// The region of a box query with the bounds given.
pub open spec fn rect(minx: i64, miny: i64, maxx: i64, maxy: i64) -> Region {
    Region::Rect { minx: minx as int, miny: miny as int, maxx: maxx as int, maxy: maxy as int }
}

/// The region of a radius query with the centre and the radius given.
pub open spec fn disc(qx: i64, qy: i64, r: i64) -> Region {
    Region::Disc { qx: qx as int, qy: qy as int, r: r as int }
}

/// What the visit of position `i` reports: its identifier if its point lies
/// in the region, nothing otherwise.
pub open spec fn hit(s: Layout, region: Region, i: int) -> Seq<usize> {
    if region.holds(s.points[i]) {
        seq![s.ids[i]]
    } else {
        Seq::empty()
    }
}

/// The matches of a linear scan over the positions `lo <= i < hi`, in the
/// order of the positions.
pub open spec fn scan(s: Layout, region: Region, lo: int, hi: int) -> Seq<usize>
    decreases hi - lo,
{
    if hi <= lo {
        Seq::empty()
    } else {
        scan(s, region, lo, hi - 1) + hit(s, region, hi - 1)
    }
}

/// The matches that the traversal of `[left, right]` reports, in the order
/// in which it reports them: a leaf bucket is scanned from left to right; an
/// inner range reports its middle entry, then the left half, then the right
/// half, each half only if the region reaches it.
pub open spec fn visit(
    s: Layout,
    node_size: nat,
    region: Region,
    left: int,
    right: int,
    axis: int,
) -> Seq<usize>
    decreases right + 1 - left,
{
    if right - left <= node_size {
        scan(s, region, left, right + 1)
    } else {
        let m = middle(left, right);
        hit(s, region, m) + (if region.reaches_left(s.points[m], axis) {
            visit(s, node_size, region, left, m - 1, flip(axis))
        } else {
            Seq::empty()
        }) + (if region.reaches_right(s.points[m], axis) {
            visit(s, node_size, region, m + 1, right, flip(axis))
        } else {
            Seq::empty()
        })
    }
}

/// Some position of `[left, right]` holds `id` with a point in the region.
pub open spec fn found_in(s: Layout, region: Region, left: int, right: int, id: usize) -> bool {
    exists|i: int| left <= i <= right && (#[trigger] s.ids[i]) == id && region.holds(s.points[i])
}

/// `hits` reports exactly the matching entries of `[left, right]`, each once.
pub open spec fn exact(hits: Seq<usize>, s: Layout, region: Region, left: int, right: int) -> bool {
    &&& hits.no_duplicates()
    &&& forall|id: usize| hits.contains(id) <==> found_in(s, region, left, right, id)
}

/// A strictly larger magnitude has a strictly larger square.
pub proof fn lemma_square_grows(a: int, r: int)
    requires
        0 <= r < a,
    ensures
        r * r < a * a,
{
    assert(r * r <= r * a) by (nonlinear_arith)
        requires
            0 <= r < a,
    ;
    assert(r * a < a * a) by (nonlinear_arith)
        requires
            0 <= r < a,
    ;
}

/// A point in the disc lies within the radius of the centre along each axis.
pub proof fn lemma_disc_in_bounds(px: int, py: int, qx: int, qy: int, r: int)
    requires
        r >= 0,
        dist2(px, py, qx, qy) <= r * r,
    ensures
        qx - r <= px <= qx + r,
        qy - r <= py <= qy + r,
{
    assert((px - qx) * (px - qx) >= 0) by (nonlinear_arith);
    assert((py - qy) * (py - qy) >= 0) by (nonlinear_arith);
    if px - qx > r {
        lemma_square_grows(px - qx, r);
    }
    if qx - px > r {
        lemma_square_grows(qx - px, r);
        assert((qx - px) * (qx - px) == (px - qx) * (px - qx)) by (nonlinear_arith);
    }
    if py - qy > r {
        lemma_square_grows(py - qy, r);
    }
    if qy - py > r {
        lemma_square_grows(qy - py, r);
        assert((qy - py) * (qy - py) == (py - qy) * (py - qy)) by (nonlinear_arith);
    }
}

/// Pruning is sound: a half that the region does not reach holds no match.
pub proof fn lemma_prune_sound(region: Region, p: Point, mid: Point, axis: int)
    requires
        region.holds(p),
    ensures
        key(p, axis) <= key(mid, axis) ==> region.reaches_left(mid, axis),
        key(mid, axis) <= key(p, axis) ==> region.reaches_right(mid, axis),
{
    match region {
        Region::Rect { minx, miny, maxx, maxy } => {},
        Region::Disc { qx, qy, r } => {
            lemma_disc_in_bounds(p[0] as int, p[1] as int, qx, qy, r);
        },
    }
}

/// An item is in a concatenation exactly if it is in one of the parts.
pub proof fn lemma_concat_contains(a: Seq<usize>, b: Seq<usize>, id: usize)
    ensures
        (a + b).contains(id) <==> a.contains(id) || b.contains(id),
{
    let c = a + b;
    if c.contains(id) {
        let i = choose|i: int| 0 <= i < c.len() && c[i] == id;
        if i < a.len() {
            assert(a[i] == id);
        } else {
            assert(b[i - a.len()] == id);
        }
    }
    if a.contains(id) {
        let i = choose|i: int| 0 <= i < a.len() && a[i] == id;
        assert(c[i] == id);
    }
    if b.contains(id) {
        let i = choose|i: int| 0 <= i < b.len() && b[i] == id;
        assert(c[a.len() + i] == id);
    }
}

/// Reports over two ranges that do not overlap have no identifier in common.
pub proof fn lemma_reports_apart(
    a: Seq<usize>,
    b: Seq<usize>,
    s: Layout,
    region: Region,
    left_a: int,
    right_a: int,
    left_b: int,
    right_b: int,
)
    requires
        s.distinct(),
        0 <= left_a,
        right_a < left_b,
        right_b < s.ids.len(),
        exact(a, s, region, left_a, right_a),
        exact(b, s, region, left_b, right_b),
    ensures
        forall|i: int, j: int| 0 <= i < a.len() && 0 <= j < b.len() ==> a[i] != b[j],
{
    assert forall|i: int, j: int| 0 <= i < a.len() && 0 <= j < b.len() implies a[i] != b[j] by {
        assert(a.contains(a[i]));
        assert(b.contains(b[j]));
        let x = choose|x: int|
            left_a <= x <= right_a && (#[trigger] s.ids[x]) == a[i] && region.holds(s.points[x]);
        let y = choose|y: int|
            left_b <= y <= right_b && (#[trigger] s.ids[y]) == b[j] && region.holds(s.points[y]);
        assert(s.ids[x] != s.ids[y]);
    }
}

/// The reports over two adjoining ranges, one after the other, are the
/// report over the range that spans both.
pub proof fn lemma_join_exact(
    a: Seq<usize>,
    b: Seq<usize>,
    s: Layout,
    region: Region,
    left: int,
    cut: int,
    right: int,
)
    requires
        s.distinct(),
        0 <= left,
        right < s.ids.len(),
        left <= cut <= right + 1,
        exact(a, s, region, left, cut - 1),
        exact(b, s, region, cut, right),
    ensures
        exact(a + b, s, region, left, right),
{
    lemma_reports_apart(a, b, s, region, left, cut - 1, cut, right);
    vstd::seq_lib::lemma_no_dup_in_concat(a, b);
    assert forall|id: usize| (a + b).contains(id) <==> found_in(s, region, left, right, id) by {
        lemma_concat_contains(a, b, id);
        if found_in(s, region, left, right, id) {
            let i = choose|i: int|
                left <= i <= right && (#[trigger] s.ids[i]) == id && region.holds(s.points[i]);
            if i < cut {
                assert(found_in(s, region, left, cut - 1, id));
            } else {
                assert(found_in(s, region, cut, right, id));
            }
        }
        if a.contains(id) {
            let i = choose|i: int|
                left <= i <= cut - 1 && (#[trigger] s.ids[i]) == id && region.holds(s.points[i]);
            assert(left <= i <= right);
        }
        if b.contains(id) {
            let i = choose|i: int|
                cut <= i <= right && (#[trigger] s.ids[i]) == id && region.holds(s.points[i]);
            assert(left <= i <= right);
        }
    }
}

/// The report of a node, then of the range before it, then of the range
/// after it, is the report over the whole range.
pub proof fn lemma_node_exact(
    head: Seq<usize>,
    low: Seq<usize>,
    high: Seq<usize>,
    s: Layout,
    region: Region,
    left: int,
    m: int,
    right: int,
)
    requires
        s.distinct(),
        0 <= left <= m <= right < s.ids.len(),
        exact(head, s, region, m, m),
        exact(low, s, region, left, m - 1),
        exact(high, s, region, m + 1, right),
    ensures
        exact(head + low + high, s, region, left, right),
{
    let front = head + low;
    lemma_reports_apart(low, head, s, region, left, m - 1, m, m);
    vstd::seq_lib::lemma_no_dup_in_concat(head, low);
    lemma_reports_apart(head, high, s, region, m, m, m + 1, right);
    lemma_reports_apart(low, high, s, region, left, m - 1, m + 1, right);
    assert forall|i: int, j: int| 0 <= i < front.len() && 0 <= j < high.len() implies front[i]
        != high[j] by {
        if i < head.len() {
            assert(front[i] == head[i]);
        } else {
            assert(front[i] == low[i - head.len()]);
        }
    }
    vstd::seq_lib::lemma_no_dup_in_concat(front, high);
    assert forall|id: usize| (front + high).contains(id) <==> found_in(
        s,
        region,
        left,
        right,
        id,
    ) by {
        lemma_concat_contains(head, low, id);
        lemma_concat_contains(front, high, id);
        if found_in(s, region, left, right, id) {
            let i = choose|i: int|
                left <= i <= right && (#[trigger] s.ids[i]) == id && region.holds(s.points[i]);
            if i < m {
                assert(found_in(s, region, left, m - 1, id));
            } else if i == m {
                assert(found_in(s, region, m, m, id));
            } else {
                assert(found_in(s, region, m + 1, right, id));
            }
        }
        if head.contains(id) {
            let i = choose|i: int|
                m <= i <= m && (#[trigger] s.ids[i]) == id && region.holds(s.points[i]);
            assert(left <= i <= right);
        }
        if low.contains(id) {
            let i = choose|i: int|
                left <= i <= m - 1 && (#[trigger] s.ids[i]) == id && region.holds(s.points[i]);
            assert(left <= i <= right);
        }
        if high.contains(id) {
            let i = choose|i: int|
                m + 1 <= i <= right && (#[trigger] s.ids[i]) == id && region.holds(s.points[i]);
            assert(left <= i <= right);
        }
    }
}

/// The visit of one position reports exactly the match at that position.
pub proof fn lemma_hit_exact(s: Layout, region: Region, i: int)
    requires
        0 <= i < s.ids.len(),
    ensures
        exact(hit(s, region, i), s, region, i, i),
{
    let h = hit(s, region, i);
    assert forall|id: usize| h.contains(id) <==> found_in(s, region, i, i, id) by {
        if h.contains(id) {
            let x = choose|x: int| 0 <= x < h.len() && h[x] == id;
            assert(s.ids[i] == id);
        }
        if found_in(s, region, i, i, id) {
            assert(h[0] == id);
        }
    }
}

/// Nothing is the exact report over a range in which nothing matches.
pub proof fn lemma_empty_exact(s: Layout, region: Region, left: int, right: int)
    requires
        forall|i: int| left <= i <= right ==> !region.holds(#[trigger] s.points[i]),
    ensures
        exact(Seq::<usize>::empty(), s, region, left, right),
{
    assert forall|id: usize| !found_in(s, region, left, right, id) by {
        if found_in(s, region, left, right, id) {
            let i = choose|i: int|
                left <= i <= right && (#[trigger] s.ids[i]) == id && region.holds(s.points[i]);
            assert(!region.holds(s.points[i]));
        }
    }
}

/// A scan for a disc of negative radius reports nothing.
pub proof fn lemma_scan_negative_radius(s: Layout, qx: int, qy: int, r: int, lo: int, hi: int)
    requires
        r < 0,
    ensures
        scan(s, Region::Disc { qx, qy, r }, lo, hi) == Seq::<usize>::empty(),
    decreases hi - lo,
{
    if hi > lo {
        lemma_scan_negative_radius(s, qx, qy, r, lo, hi - 1);
        assert(Seq::<usize>::empty() + Seq::<usize>::empty() =~= Seq::<usize>::empty());
    }
}

/// A traversal for a disc of negative radius reports nothing.
pub proof fn lemma_visit_negative_radius(
    s: Layout,
    node_size: nat,
    qx: int,
    qy: int,
    r: int,
    left: int,
    right: int,
    axis: int,
)
    requires
        r < 0,
    ensures
        visit(s, node_size, Region::Disc { qx, qy, r }, left, right, axis) == Seq::<usize>::empty(),
{
    if right - left <= node_size {
        lemma_scan_negative_radius(s, qx, qy, r, left, right + 1);
    } else {
        assert(Seq::<usize>::empty() + Seq::<usize>::empty() =~= Seq::<usize>::empty());
    }
}

/// A linear scan reports exactly the matching entries of its range.
pub proof fn lemma_scan_exact(s: Layout, region: Region, lo: int, hi: int)
    requires
        s.distinct(),
        0 <= lo <= hi <= s.ids.len(),
    ensures
        exact(scan(s, region, lo, hi), s, region, lo, hi - 1),
    decreases hi - lo,
{
    if hi <= lo {
        lemma_empty_exact(s, region, lo, hi - 1);
    } else {
        lemma_scan_exact(s, region, lo, hi - 1);
        lemma_hit_exact(s, region, hi - 1);
        lemma_join_exact(
            scan(s, region, lo, hi - 1),
            hit(s, region, hi - 1),
            s,
            region,
            lo,
            hi - 1,
            hi - 1,
        );
    }
}

/// On a partitioned range the traversal reports exactly the matching
/// entries of the range, each once: what a linear scan of the range finds.
pub proof fn lemma_visit_exact(
    s: Layout,
    node_size: nat,
    region: Region,
    left: int,
    right: int,
    axis: int,
)
    requires
        s.distinct(),
        0 <= left <= right + 1,
        right < s.ids.len(),
        partitioned(s.points, node_size, left, right, axis),
    ensures
        exact(visit(s, node_size, region, left, right, axis), s, region, left, right),
    decreases right + 1 - left,
{
    if right - left <= node_size {
        lemma_scan_exact(s, region, left, right + 1);
    } else {
        let m = middle(left, right);
        let head = hit(s, region, m);
        let low = if region.reaches_left(s.points[m], axis) {
            visit(s, node_size, region, left, m - 1, flip(axis))
        } else {
            Seq::empty()
        };
        let high = if region.reaches_right(s.points[m], axis) {
            visit(s, node_size, region, m + 1, right, flip(axis))
        } else {
            Seq::empty()
        };
        lemma_hit_exact(s, region, m);
        if region.reaches_left(s.points[m], axis) {
            lemma_visit_exact(s, node_size, region, left, m - 1, flip(axis));
        } else {
            assert forall|i: int| left <= i <= m - 1 implies !region.holds(
                #[trigger] s.points[i],
            ) by {
                if region.holds(s.points[i]) {
                    lemma_prune_sound(region, s.points[i], s.points[m], axis);
                }
            }
            lemma_empty_exact(s, region, left, m - 1);
        }
        if region.reaches_right(s.points[m], axis) {
            lemma_visit_exact(s, node_size, region, m + 1, right, flip(axis));
        } else {
            assert forall|i: int| m + 1 <= i <= right implies !region.holds(
                #[trigger] s.points[i],
            ) by {
                if region.holds(s.points[i]) {
                    lemma_prune_sound(region, s.points[i], s.points[m], axis);
                }
            }
            lemma_empty_exact(s, region, m + 1, right);
        }
        lemma_node_exact(head, low, high, s, region, left, m, right);
    }
}

} // verus!
