//! The mathematical model of the index arrays: points, splitting keys, and
//! what it means for one arrangement of the entries to be a reordering of
//! another.

use vstd::prelude::*;

verus! {

/// A point of the plane: `[x, y]`.
pub type Point = [i64; 2];

/// The coordinate of `p` along `axis`: x for axis 0, y for any other axis.
pub open spec fn key(p: Point, axis: int) -> int {
    if axis == 0 {
        p[0] as int
    } else {
        p[1] as int
    }
}

/// The axis used one level further down the tree.
pub open spec fn flip(axis: int) -> int {
    if axis == 0 {
        1
    } else {
        0
    }
}

/// The two parallel arrays of the index, as sequences: position `i` holds
/// the identifier `ids[i]` together with its coordinates `points[i]`.
pub struct Layout {
    pub ids: Seq<usize>,
    pub points: Seq<Point>,
}

impl Layout {
    /// Both arrays have the same length.
    pub open spec fn aligned(self) -> bool {
        self.ids.len() == self.points.len()
    }

    /// No identifier occurs at two positions.
    pub open spec fn distinct(self) -> bool {
        forall|i: int, j: int| 0 <= i < j < self.ids.len() ==> self.ids[i] != self.ids[j]
    }

    /// The identifiers are `0, 1, .., len - 1` in some order.
    pub open spec fn permutation(self) -> bool {
        &&& self.aligned()
        &&& self.distinct()
        &&& forall|i: int| 0 <= i < self.ids.len() ==> self.ids[i] < self.ids.len()
    }

    /// The position at which the identifier `id` stands.
    pub open spec fn position_of(self, id: int) -> int {
        choose|i: int| 0 <= i < self.ids.len() && self.ids[i] == id
    }

    /// The points in the order of their identifiers: entry `id` is the point
    /// whose identifier is `id`.
    pub open spec fn source(self) -> Seq<Point> {
        Seq::new(self.ids.len(), |id: int| self.points[self.position_of(id)])
    }

    /// The layout with the entries at positions `i` and `j` exchanged.
    pub open spec fn swapped(self, i: int, j: int) -> Layout {
        Layout {
            ids: self.ids.update(i, self.ids[j]).update(j, self.ids[i]),
            points: self.points.update(i, self.points[j]).update(j, self.points[i]),
        }
    }

    /// The entry at position `q` is an entry that `before` held somewhere in
    /// `[left, right]`.
    pub open spec fn drawn_from(self, before: Layout, q: int, left: int, right: int) -> bool {
        exists|p: int|
            left <= p <= right && (#[trigger] before.ids[p]) == self.ids[q] && before.points[p]
                == self.points[q]
    }

    /// `self` is `before` with the entries of `[left, right]` reordered among
    /// themselves: nothing outside the range moved, every entry inside it was
    /// inside it before, each identifier still travels with its coordinates,
    /// and identifiers that were distinct stay distinct.
    pub open spec fn rearranges(self, before: Layout, left: int, right: int) -> bool {
        &&& self.aligned()
        &&& before.aligned()
        &&& self.ids.len() == before.ids.len()
        &&& 0 <= left
        &&& right < self.ids.len()
        &&& forall|i: int|
            0 <= i < self.ids.len() && !(left <= i <= right) ==> self.ids[i] == before.ids[i]
                && self.points[i] == before.points[i]
        &&& forall|q: int| left <= q <= right ==> #[trigger] self.drawn_from(before, q, left, right)
        &&& before.distinct() ==> self.distinct()
    }
}

/// Every layout is a reordering of itself.
pub proof fn lemma_rearranges_self(s: Layout, left: int, right: int)
    requires
        s.aligned(),
        0 <= left,
        right < s.ids.len(),
    ensures
        s.rearranges(s, left, right),
{
    assert forall|q: int| left <= q <= right implies #[trigger] s.drawn_from(s, q, left, right) by {
        let p = q;
        assert(left <= p <= right && s.ids[p] == s.ids[q] && s.points[p] == s.points[q]);
    }
}

/// Exchanging two entries of the range keeps a reordering a reordering.
pub proof fn lemma_rearranges_swap(s: Layout, before: Layout, i: int, j: int, left: int, right: int)
    requires
        s.rearranges(before, left, right),
        left <= i <= right,
        left <= j <= right,
    ensures
        s.swapped(i, j).rearranges(before, left, right),
{
    let t = s.swapped(i, j);
    assert forall|q: int| left <= q <= right implies #[trigger] t.drawn_from(
        before,
        q,
        left,
        right,
    ) by {
        let from = if q == i {
            j
        } else if q == j {
            i
        } else {
            q
        };
        assert(s.drawn_from(before, from, left, right));
        let p = choose|p: int|
            left <= p <= right && (#[trigger] before.ids[p]) == s.ids[from] && before.points[p]
                == s.points[from];
        assert(before.ids[p] == t.ids[q] && before.points[p] == t.points[q]);
    }
    if before.distinct() {
        assert forall|a: int, b: int| 0 <= a < b < t.ids.len() implies t.ids[a] != t.ids[b] by {
            let a0 = if a == i {
                j
            } else if a == j {
                i
            } else {
                a
            };
            let b0 = if b == i {
                j
            } else if b == j {
                i
            } else {
                b
            };
            assert(t.ids[a] == s.ids[a0]);
            assert(t.ids[b] == s.ids[b0]);
            assert(a0 != b0);
            if a0 < b0 {
                assert(s.ids[a0] != s.ids[b0]);
            } else {
                assert(s.ids[b0] != s.ids[a0]);
            }
        }
    }
}

/// A reordering of a part of the range, applied after a reordering of the
/// range, is a reordering of the range.
pub proof fn lemma_rearranges_chain(
    last: Layout,
    mid: Layout,
    first: Layout,
    left: int,
    right: int,
    inner_left: int,
    inner_right: int,
)
    requires
        mid.rearranges(first, left, right),
        last.rearranges(mid, inner_left, inner_right),
        left <= inner_left,
        inner_right <= right,
    ensures
        last.rearranges(first, left, right),
{
    assert forall|q: int| left <= q <= right implies #[trigger] last.drawn_from(
        first,
        q,
        left,
        right,
    ) by {
        let via = if inner_left <= q <= inner_right {
            assert(last.drawn_from(mid, q, inner_left, inner_right));
            choose|p: int|
                inner_left <= p <= inner_right && (#[trigger] mid.ids[p]) == last.ids[q]
                    && mid.points[p] == last.points[q]
        } else {
            q
        };
        assert(mid.drawn_from(first, via, left, right));
        let p = choose|p: int|
            left <= p <= right && (#[trigger] first.ids[p]) == mid.ids[via] && first.points[p]
                == mid.points[via];
        assert(first.ids[p] == last.ids[q] && first.points[p] == last.points[q]);
    }
}

/// In a permutation every identifier below the length stands somewhere.
pub proof fn lemma_every_id_placed(s: Layout, id: int)
    requires
        s.permutation(),
        0 <= id < s.ids.len(),
    ensures
        0 <= s.position_of(id) < s.ids.len(),
        s.ids[s.position_of(id)] == id,
{
    let n = s.ids.len() as int;
    let held = s.ids.map_values(|x: usize| x as int);
    assert(held.no_duplicates()) by {
        assert forall|i: int, j: int|
            0 <= i < held.len() && 0 <= j < held.len() && i != j implies held[i] != held[j] by {
            if i < j {
                assert(s.ids[i] != s.ids[j]);
            } else {
                assert(s.ids[j] != s.ids[i]);
            }
        }
    }
    held.unique_seq_to_set();
    vstd::seq_lib::seq_to_set_is_finite(held);
    vstd::set_lib::lemma_int_range(0, n);
    let all = vstd::set_lib::set_int_range(0, n);
    assert(held.to_set().subset_of(all)) by {
        assert forall|x: int| held.to_set().contains(x) implies all.contains(x) by {
            let i = choose|i: int| 0 <= i < held.len() && held[i] == x;
            assert(s.ids[i] < s.ids.len());
        }
    }
    vstd::set_lib::lemma_subset_equality(held.to_set(), all);
    assert(all.contains(id));
    assert(held.to_set().contains(id));
    assert(held.contains(id));
    let i = choose|i: int| 0 <= i < held.len() && held[i] == id;
    assert(s.ids[i] == id);
}

/// In a permutation the point at position `i` is the source point of the
/// identifier at position `i`.
pub proof fn lemma_source_at(s: Layout, i: int)
    requires
        s.permutation(),
        0 <= i < s.ids.len(),
    ensures
        s.source()[s.ids[i] as int] == s.points[i],
{
    let id = s.ids[i] as int;
    lemma_every_id_placed(s, id);
    let p = s.position_of(id);
    if p < i {
        assert(s.ids[p] != s.ids[i]);
    } else if i < p {
        assert(s.ids[i] != s.ids[p]);
    }
}

/// The position in `[left, right]` from which `before` gave the entry that
/// stands at position `q`.
pub open spec fn origin(s: Layout, before: Layout, q: int, left: int, right: int) -> int {
    choose|p: int|
        left <= p <= right && (#[trigger] before.ids[p]) == s.ids[q] && before.points[p]
            == s.points[q]
}

/// A reordering of distinct entries loses none: every entry that the range
/// held before stands somewhere in the range.
pub proof fn lemma_rearranges_onto(s: Layout, before: Layout, left: int, right: int, p: int)
    requires
        s.rearranges(before, left, right),
        before.distinct(),
        left <= p <= right,
    ensures
        exists|q: int|
            left <= q <= right && (#[trigger] s.ids[q]) == before.ids[p] && s.points[q]
                == before.points[p],
{
    let n = right - left + 1;
    let from = Seq::new(n as nat, |i: int| origin(s, before, left + i, left, right));
    assert forall|i: int| 0 <= i < n implies left <= (#[trigger] from[i]) <= right
        && before.ids[from[i]] == s.ids[left + i] && before.points[from[i]] == s.points[left
        + i] by {
        assert(s.drawn_from(before, left + i, left, right));
    }
    assert(from.no_duplicates()) by {
        assert forall|i: int, j: int| 0 <= i < n && 0 <= j < n && i != j implies from[i]
            != from[j] by {
            if i < j {
                assert(s.ids[left + i] != s.ids[left + j]);
            } else {
                assert(s.ids[left + j] != s.ids[left + i]);
            }
        }
    }
    from.unique_seq_to_set();
    vstd::seq_lib::seq_to_set_is_finite(from);
    vstd::set_lib::lemma_int_range(left, right + 1);
    let all = vstd::set_lib::set_int_range(left, right + 1);
    assert(from.to_set().subset_of(all)) by {
        assert forall|x: int| from.to_set().contains(x) implies all.contains(x) by {
            let i = choose|i: int| 0 <= i < from.len() && from[i] == x;
            assert(left <= from[i] <= right);
        }
    }
    vstd::set_lib::lemma_subset_equality(from.to_set(), all);
    assert(all.contains(p));
    assert(from.to_set().contains(p));
    assert(from.contains(p));
    let i = choose|i: int| 0 <= i < from.len() && from[i] == p;
    assert(s.ids[left + i] == before.ids[p] && s.points[left + i] == before.points[p]);
}

/// Two reorderings of the same distinct entries hold the same entries, so a
/// property cannot hold of more positions in one than the other has room
/// for: if all of `[t_lo, t_hi]` in `t` have the property `kind`, and in `s`
/// only positions of `[s_lo, s_hi]` have it, the first range is no longer
/// than the second.
pub proof fn lemma_same_entries_same_count(
    s: Layout,
    t: Layout,
    before: Layout,
    left: int,
    right: int,
    kind: spec_fn(Point) -> bool,
    t_lo: int,
    t_hi: int,
    s_lo: int,
    s_hi: int,
)
    requires
        before.distinct(),
        s.rearranges(before, left, right),
        t.rearranges(before, left, right),
        left <= t_lo,
        t_hi <= right,
        forall|i: int| t_lo <= i <= t_hi ==> kind(#[trigger] t.points[i]),
        forall|j: int| left <= j <= right && kind(#[trigger] s.points[j]) ==> s_lo <= j <= s_hi,
    ensures
        t_hi - t_lo <= s_hi - s_lo || t_hi < t_lo,
{
    if t_lo <= t_hi {
        let n = t_hi - t_lo + 1;
        let place = |i: int|
            choose|q: int|
                left <= q <= right && (#[trigger] s.ids[q]) == t.ids[t_lo + i] && s.points[q]
                    == t.points[t_lo + i];
        let to = Seq::new(n as nat, place);
        assert forall|i: int| 0 <= i < n implies s_lo <= (#[trigger] to[i]) <= s_hi && s.ids[to[i]]
            == t.ids[t_lo + i] by {
            assert(t.drawn_from(before, t_lo + i, left, right));
            let p = origin(t, before, t_lo + i, left, right);
            lemma_rearranges_onto(s, before, left, right, p);
            let q = place(i);
            assert(left <= q <= right && s.ids[q] == t.ids[t_lo + i] && s.points[q] == t.points[t_lo
                + i]);
            assert(kind(t.points[t_lo + i]));
            assert(kind(s.points[q]));
        }
        assert(to.no_duplicates()) by {
            assert forall|i: int, j: int| 0 <= i < n && 0 <= j < n && i != j implies to[i]
                != to[j] by {
                if i < j {
                    assert(t.ids[t_lo + i] != t.ids[t_lo + j]);
                } else {
                    assert(t.ids[t_lo + j] != t.ids[t_lo + i]);
                }
            }
        }
        assert(s_lo <= to[0] <= s_hi);
        to.unique_seq_to_set();
        vstd::set_lib::lemma_int_range(s_lo, s_hi + 1);
        let room = vstd::set_lib::set_int_range(s_lo, s_hi + 1);
        assert(to.to_set().subset_of(room)) by {
            assert forall|x: int| to.to_set().contains(x) implies room.contains(x) by {
                let i = choose|i: int| 0 <= i < to.len() && to[i] == x;
                assert(s_lo <= to[i] <= s_hi);
            }
        }
        vstd::set_lib::lemma_len_subset(to.to_set(), room);
    }
}

/// A bound from above on the keys of a range survives a reordering of it.
pub proof fn lemma_upper_bound_kept(
    s: Layout,
    before: Layout,
    left: int,
    right: int,
    axis: int,
    bound: int,
)
    requires
        s.rearranges(before, left, right),
        forall|p: int| left <= p <= right ==> key(#[trigger] before.points[p], axis) <= bound,
    ensures
        forall|q: int| left <= q <= right ==> key(#[trigger] s.points[q], axis) <= bound,
{
    assert forall|q: int| left <= q <= right implies key(#[trigger] s.points[q], axis)
        <= bound by {
        assert(s.drawn_from(before, q, left, right));
        let p = choose|p: int|
            left <= p <= right && (#[trigger] before.ids[p]) == s.ids[q] && before.points[p]
                == s.points[q];
        assert(key(before.points[p], axis) <= bound);
    }
}

/// A bound from below on the keys of a range survives a reordering of it.
pub proof fn lemma_lower_bound_kept(
    s: Layout,
    before: Layout,
    left: int,
    right: int,
    axis: int,
    bound: int,
)
    requires
        s.rearranges(before, left, right),
        forall|p: int| left <= p <= right ==> bound <= key(#[trigger] before.points[p], axis),
    ensures
        forall|q: int| left <= q <= right ==> bound <= key(#[trigger] s.points[q], axis),
{
    assert forall|q: int| left <= q <= right implies bound <= key(
        #[trigger] s.points[q],
        axis,
    ) by {
        assert(s.drawn_from(before, q, left, right));
        let p = choose|p: int|
            left <= p <= right && (#[trigger] before.ids[p]) == s.ids[q] && before.points[p]
                == s.points[q];
        assert(bound <= key(before.points[p], axis));
    }
}

/// Reads the coordinate of `p` along `axis`.
pub fn key_of(p: &Point, axis: usize) -> (c: i64)
    ensures
        c == key(*p, axis as int),
{
    if axis == 0 {
        p[0]
    } else {
        p[1]
    }
}

/// Exchanges the entries at positions `i` and `j` of both arrays.
pub fn swap_item(ids: &mut Vec<usize>, points: &mut Vec<Point>, i: usize, j: usize)
    requires
        old(ids).len() == old(points).len(),
        i < old(ids).len(),
        j < old(ids).len(),
    ensures
        (Layout { ids: final(ids)@, points: final(points)@ }) == (Layout {
            ids: old(ids)@,
            points: old(points)@,
        }).swapped(i as int, j as int),
        final(ids).len() == old(ids).len(),
        final(points).len() == old(points).len(),
{
    let a: usize = ids[i];
    let b: usize = ids[j];
    ids[i] = b;
    ids[j] = a;
    let p: Point = points[i];
    let q: Point = points[j];
    points[i] = q;
    points[j] = p;
}

} // verus!
