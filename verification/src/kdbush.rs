//! The index: built once from a sequence of points, then queried by box or
//! by radius. Matches are reported by identifier, the position of a point
//! in the sequence that the index was built from.

use crate::layout::{lemma_every_id_placed, lemma_source_at, Layout, Point};
use crate::query::{
    disc, dist2, exact, found_in, hit, lemma_visit_exact, lemma_visit_negative_radius, rect, scan,
    visit, Region,
};
use crate::tree::{partitioned, sort_kd};
use vstd::prelude::*;

verus! {

/// Why an index could not be built.
#[derive(Debug, Clone, Copy, PartialEq, Eq)]
pub enum BuildError {
    /// The declared number of points is not the number of points given, or
    /// the leaf threshold is zero.
    InvalidArgument,
}

/// A static spatial index over a fixed set of points.
#[derive(Debug)]
pub struct KDBush {
    ids: Vec<usize>,
    points: Vec<Point>,
    node_size: u8,
}

impl View for KDBush {
    type V = Seq<Point>;

    /// The points that the index was built from, in the order in which they
    /// were given: entry `id` is the point that queries report as `id`.
    open spec fn view(&self) -> Seq<Point> {
        self.layout().source()
    }
}

impl KDBush {
    /// The two arrays as they are laid out.
    pub closed spec fn layout(&self) -> Layout {
        Layout { ids: self.ids@, points: self.points@ }
    }

    /// The leaf threshold: ranges of at most this many positions beyond
    /// their first are left unsorted.
    pub closed spec fn leaf_size(&self) -> nat {
        self.node_size as nat
    }

    /// The invariant of a built index: the identifiers are a permutation of
    /// `0 .. len`, the threshold is positive, and the whole range satisfies
    /// the partition invariant, split along x first.
    pub open spec fn wf(&self) -> bool {
        &&& self.layout().permutation()
        &&& self.leaf_size() >= 1
        &&& partitioned(
            self.layout().points,
            self.leaf_size(),
            0,
            self.layout().ids.len() - 1,
            0,
        )
    }

    #[verifier::type_invariant]
    spec fn inv(&self) -> bool {
        self.wf()
    }

    /// Builds the index over `points`. `size` is the number of points and
    /// `node_size` the leaf threshold; a `size` other than the length of
    /// `points` and a threshold of zero are rejected.
    pub fn fill(points: &[Point], size: usize, node_size: u8) -> (built: Result<KDBush, BuildError>)
        ensures
            built is Ok <==> size == points@.len() && node_size >= 1,
            built is Ok ==> built->Ok_0.wf() && built->Ok_0@ == points@ && built->Ok_0.leaf_size()
                == node_size,
            built is Err ==> built->Err_0 == BuildError::InvalidArgument,
    {
        if size != points.len() || node_size == 0 {
            return Err(BuildError::InvalidArgument);
        }
        let mut ids: Vec<usize> = Vec::with_capacity(size);
        let mut coords: Vec<Point> = Vec::with_capacity(size);
        let mut i: usize = 0;
        while i < size
            invariant
                size == points@.len(),
                i <= size,
                ids@.len() == i,
                coords@.len() == i,
                forall|j: int| 0 <= j < i ==> ids@[j] == j && coords@[j] == points@[j],
            decreases size - i,
        {
            coords.push(points[i]);
            ids.push(i);
            i += 1;
        }
        let ghost start = Layout { ids: ids@, points: coords@ };
        if size > 0 {
            sort_kd(&mut ids, &mut coords, node_size, 0, size - 1, 0);
        }
        proof {
            let done = Layout { ids: ids@, points: coords@ };
            assert(start.distinct());
            if size == 0 {
                assert(done.permutation());
            } else {
                assert(done.rearranges(start, 0, size - 1));
                assert forall|q: int| 0 <= q < size implies (#[trigger] done.ids[q]) < size
                    && done.points[q] == points@[done.ids[q] as int] by {
                    assert(done.drawn_from(start, q, 0, size - 1));
                }
                assert(done.permutation());
            }
            assert forall|id: int| 0 <= id < size implies (#[trigger] done.source()[id])
                == points@[id] by {
                lemma_every_id_placed(done, id);
            }
            assert(done.source() =~= points@);
        }
        let index = KDBush { ids, points: coords, node_size };
        Ok(index)
    }

    /// The number of points fits the type of the identifiers.
    pub proof fn lemma_len(self)
        ensures
            self@.len() == self.layout().ids.len(),
            self@.len() <= usize::MAX,
    {
        assert(self.ids.len() == self.ids@.len());
    }

    /// The matches of a query for `region`, in the order in which the
    /// traversal of the whole index reports them.
    pub open spec fn report(&self, region: Region) -> Seq<usize> {
        visit(self.layout(), self.leaf_size(), region, 0, self.layout().ids.len() - 1, 0)
    }

    /// What a linear scan over the points as given decides for `id`: it is
    /// the identifier of a point, and that point lies in the region.
    pub open spec fn matches(&self, region: Region, id: usize) -> bool {
        id < self@.len() && region.holds(self@[id as int])
    }

    /// Finds all items within the given bounding box, bounds included, and
    /// appends their identifiers to `visitor` in the order of the traversal.
    pub fn range(&self, minx: i64, miny: i64, maxx: i64, maxy: i64, visitor: &mut Vec<usize>)
        ensures
            final(visitor)@ == old(visitor)@ + self.report(
                rect(minx, miny, maxx, maxy),
            ),
            self.report(
                rect(minx, miny, maxx, maxy),
            ).no_duplicates(),
            forall|id: usize|
                self.report(
                    rect(minx, miny, maxx, maxy),
                ).contains(id) <==> self.matches(
                    rect(minx, miny, maxx, maxy),
                    id,
                ),
    {
        let ghost region = rect(minx, miny, maxx, maxy);
        proof {
            use_type_invariant(self);
            lemma_report_exact(*self, region);
        }
        if self.ids.len() == 0 {
            assert(self.report(region) =~= Seq::<usize>::empty());
            assert(visitor@ + self.report(region) =~= visitor@);
        } else {
            self.range_idx(minx, miny, maxx, maxy, visitor, 0, self.ids.len() - 1, 0);
        }
    }

    /// Finds all items within the radius `r` of the point `(qx, qy)`, the
    /// boundary included, and appends their identifiers to `visitor` in the
    /// order of the traversal. A negative radius finds nothing.
    pub fn within(&self, qx: i64, qy: i64, r: i64, visitor: &mut Vec<usize>)
        ensures
            final(visitor)@ == old(visitor)@ + self.report(
                disc(qx, qy, r),
            ),
            self.report(
                disc(qx, qy, r),
            ).no_duplicates(),
            forall|id: usize|
                self.report(
                    disc(qx, qy, r),
                ).contains(id) <==> self.matches(
                    disc(qx, qy, r),
                    id,
                ),
    {
        let ghost region = disc(qx, qy, r);
        proof {
            use_type_invariant(self);
            lemma_report_exact(*self, region);
        }
        if self.ids.len() == 0 {
            assert(self.report(region) =~= Seq::<usize>::empty());
            assert(visitor@ + self.report(region) =~= visitor@);
        } else {
            self.within_idx(qx, qy, r, visitor, 0, self.ids.len() - 1, 0);
        }
    }

    /// The box traversal of `[left, right]`, split along `axis`: appends to
    /// `visitor` the identifiers of the entries of the range within the box,
    /// in the order of the traversal. Where the range is partitioned along
    /// `axis`, these are exactly the matching entries of the range, each
    /// once.
    fn range_idx(
        &self,
        minx: i64,
        miny: i64,
        maxx: i64,
        maxy: i64,
        visitor: &mut Vec<usize>,
        left: usize,
        right: usize,
        axis: usize,
    )
        requires
            left <= right < self.layout().ids.len(),
            axis <= 1,
        ensures
            final(visitor)@ == old(visitor)@ + visit(
                self.layout(),
                self.leaf_size(),
                rect(minx, miny, maxx, maxy),
                left as int,
                right as int,
                axis as int,
            ),
            partitioned(
                self.layout().points,
                self.leaf_size(),
                left as int,
                right as int,
                axis as int,
            ) ==> exact(
                visit(
                    self.layout(),
                    self.leaf_size(),
                    rect(minx, miny, maxx, maxy),
                    left as int,
                    right as int,
                    axis as int,
                ),
                self.layout(),
                rect(minx, miny, maxx, maxy),
                left as int,
                right as int,
            ),
        decreases right - left,
    {
        let ghost region = rect(minx, miny, maxx, maxy);
        let ghost s = self.layout();
        let ghost before = visitor@;
        proof {
            use_type_invariant(self);
            if partitioned(s.points, self.leaf_size(), left as int, right as int, axis as int) {
                lemma_visit_exact(s, self.leaf_size(), region, left as int, right as int, axis as int);
            }
        }
        assert(right < self.ids.len());
        if right - left <= self.node_size as usize {
            for i in left..right + 1
                invariant
                    left <= right < self.ids.len(),
                    self.ids.len() == self.points.len(),
                    s == self.layout(),
                    region == rect(minx, miny, maxx, maxy),
                    visitor@ == before + scan(s, region, left as int, i as int),
            {
                let x = self.points[i][0];
                let y = self.points[i][1];
                if x >= minx && x <= maxx && y >= miny && y <= maxy {
                    visitor.push(self.ids[i]);
                }
                assert(visitor@ =~= before + scan(s, region, left as int, i + 1));
            }
            return ;
        }
        let m: usize = left + (right - left) / 2;
        let x = self.points[m][0];
        let y = self.points[m][1];

        if x >= minx && x <= maxx && y >= miny && y <= maxy {
            visitor.push(self.ids[m]);
        }
        assert(visitor@ =~= before + hit(s, region, m as int));

        let lte = if axis == 0 {
            minx <= x
        } else {
            miny <= y
        };
        if lte {
            self.range_idx(minx, miny, maxx, maxy, visitor, left, m - 1, (axis + 1) % 2);
        }

        let gte = if axis == 0 {
            maxx >= x
        } else {
            maxy >= y
        };
        if gte {
            self.range_idx(minx, miny, maxx, maxy, visitor, m + 1, right, (axis + 1) % 2);
        }
        assert(visitor@ =~= before + visit(
            s,
            self.leaf_size(),
            region,
            left as int,
            right as int,
            axis as int,
        ));
    }

    /// The radius traversal of `[left, right]`, split along `axis`: appends
    /// to `visitor` the identifiers of the entries of the range within the
    /// radius `r` of `(qx, qy)`, in the order of the traversal. Where the
    /// range is partitioned along `axis`, these are exactly the matching
    /// entries of the range, each once.
    pub fn within_idx(
        &self,
        qx: i64,
        qy: i64,
        r: i64,
        visitor: &mut Vec<usize>,
        left: usize,
        right: usize,
        axis: usize,
    )
        requires
            left <= right < self.layout().ids.len(),
            axis <= 1,
        ensures
            final(visitor)@ == old(visitor)@ + visit(
                self.layout(),
                self.leaf_size(),
                disc(qx, qy, r),
                left as int,
                right as int,
                axis as int,
            ),
            partitioned(
                self.layout().points,
                self.leaf_size(),
                left as int,
                right as int,
                axis as int,
            ) ==> exact(
                visit(
                    self.layout(),
                    self.leaf_size(),
                    disc(qx, qy, r),
                    left as int,
                    right as int,
                    axis as int,
                ),
                self.layout(),
                disc(qx, qy, r),
                left as int,
                right as int,
            ),
        decreases right - left,
    {
        let ghost region = disc(qx, qy, r);
        let ghost s = self.layout();
        let ghost before = visitor@;
        let ghost whole = visit(s, self.leaf_size(), region, left as int, right as int, axis as int);
        proof {
            use_type_invariant(self);
            if partitioned(s.points, self.leaf_size(), left as int, right as int, axis as int) {
                lemma_visit_exact(s, self.leaf_size(), region, left as int, right as int, axis as int);
            }
        }
        if r < 0 {
            proof {
                lemma_visit_negative_radius(
                    s,
                    self.leaf_size(),
                    qx as int,
                    qy as int,
                    r as int,
                    left as int,
                    right as int,
                    axis as int,
                );
                assert(before + whole =~= before);
            }
            return ;
        }
        let r2: u128 = Self::square(r);
        assert(right < self.ids.len());

        if right - left <= self.node_size as usize {
            for i in left..right + 1
                invariant
                    left <= right < self.ids.len(),
                    self.ids.len() == self.points.len(),
                    s == self.layout(),
                    region == disc(qx, qy, r),
                    r >= 0,
                    r2 == r * r,
                    visitor@ == before + scan(s, region, left as int, i as int),
            {
                let x = self.points[i][0];
                let y = self.points[i][1];
                if Self::reached(x, y, qx, qy, r2) {
                    visitor.push(self.ids[i]);
                }
                assert(visitor@ =~= before + scan(s, region, left as int, i + 1));
            }
            return ;
        }
        let m: usize = left + (right - left) / 2;
        let x = self.points[m][0];
        let y = self.points[m][1];

        if Self::reached(x, y, qx, qy, r2) {
            visitor.push(self.ids[m]);
        }
        assert(visitor@ =~= before + hit(s, region, m as int));

        let lte = if axis == 0 {
            qx as i128 - r as i128 <= x as i128
        } else {
            qy as i128 - r as i128 <= y as i128
        };
        if lte {
            self.within_idx(qx, qy, r, visitor, left, m - 1, (axis + 1) % 2);
        }
        let gte = if axis == 0 {
            qx as i128 + r as i128 >= x as i128
        } else {
            qy as i128 + r as i128 >= y as i128
        };
        if gte {
            self.within_idx(qx, qy, r, visitor, m + 1, right, (axis + 1) % 2);
        }
        assert(visitor@ =~= before + whole);
    }

    /// The square of a radius that is not negative.
    fn square(r: i64) -> (r2: u128)
        requires
            r >= 0,
        ensures
            r2 == r * r,
    {
        assert(r * r <= 0x7fff_ffff_ffff_ffff * 0x7fff_ffff_ffff_ffff) by (nonlinear_arith)
            requires
                0 <= r <= 0x7fff_ffff_ffff_ffff,
        ;
        (r as u128) * (r as u128)
    }

    /// The squared distance between `(ax, ay)` and `(bx, by)`, or nothing
    /// where it is too large for the type.
    fn sq_dist(ax: i64, ay: i64, bx: i64, by: i64) -> (d: Option<u128>)
        ensures
            d is Some ==> d->Some_0 == dist2(ax as int, ay as int, bx as int, by as int),
            d is None ==> dist2(ax as int, ay as int, bx as int, by as int) > u128::MAX,
    {
        let dx: u128 = Self::gap(ax, bx);
        let dy: u128 = Self::gap(ay, by);
        assert(dx * dx <= 0xffff_ffff_ffff_ffff * 0xffff_ffff_ffff_ffff) by (nonlinear_arith)
            requires
                0 <= dx <= 0xffff_ffff_ffff_ffff,
        ;
        assert(dy * dy <= 0xffff_ffff_ffff_ffff * 0xffff_ffff_ffff_ffff) by (nonlinear_arith)
            requires
                0 <= dy <= 0xffff_ffff_ffff_ffff,
        ;
        assert(dx * dx == (ax - bx) * (ax - bx)) by (nonlinear_arith)
            requires
                dx == ax - bx || dx == bx - ax,
        ;
        assert(dy * dy == (ay - by) * (ay - by)) by (nonlinear_arith)
            requires
                dy == ay - by || dy == by - ay,
        ;
        (dx * dx).checked_add(dy * dy)
    }

    /// Whether `(x, y)` lies within the distance of `(qx, qy)` whose square
    /// is `r2`.
    fn reached(x: i64, y: i64, qx: i64, qy: i64, r2: u128) -> (near: bool)
        ensures
            near == (dist2(x as int, y as int, qx as int, qy as int) <= r2),
    {
        match Self::sq_dist(x, y, qx, qy) {
            Some(d) => d <= r2,
            None => false,
        }
    }

    /// The distance between two coordinates.
    fn gap(a: i64, b: i64) -> (d: u128)
        ensures
            d == if a >= b {
                a - b
            } else {
                b - a
            },
    {
        if a >= b {
            (a as i128 - b as i128) as u128
        } else {
            (b as i128 - a as i128) as u128
        }
    }

    /// The number of points in the index.
    pub fn len(&self) -> (n: usize)
        ensures
            n == self@.len(),
            n == self.layout().ids.len(),
    {
        self.ids.len()
    }

    /// The leaf threshold that the index was built with.
    pub fn node_size(&self) -> (n: u8)
        ensures
            n == self.leaf_size(),
    {
        self.node_size
    }

    /// The identifiers in the order of the layout.
    pub fn ids(&self) -> (ids: &Vec<usize>)
        ensures
            ids@ == self.layout().ids,
    {
        &self.ids
    }

    /// The points in the order of the layout: `points()[i]` is the point
    /// with the identifier `ids()[i]`.
    pub fn points(&self) -> (points: &Vec<Point>)
        ensures
            points@ == self.layout().points,
    {
        &self.points
    }
}

/// Over the whole of a built index the traversal reports exactly what a
/// linear scan over the points as given finds, each identifier once.
pub proof fn lemma_report_exact(index: KDBush, region: Region)
    requires
        index.wf(),
    ensures
        index.report(region).no_duplicates(),
        forall|id: usize| index.report(region).contains(id) <==> index.matches(region, id),
{
    let s = index.layout();
    let n = s.ids.len() as int;
    lemma_visit_exact(s, index.leaf_size(), region, 0, n - 1, 0);
    assert forall|id: usize| found_in(s, region, 0, n - 1, id) <==> index.matches(region, id) by {
        if found_in(s, region, 0, n - 1, id) {
            let i = choose|i: int|
                0 <= i <= n - 1 && (#[trigger] s.ids[i]) == id && region.holds(s.points[i]);
            lemma_source_at(s, i);
        }
        if index.matches(region, id) {
            lemma_every_id_placed(s, id as int);
            let i = s.position_of(id as int);
            lemma_source_at(s, i);
            assert(s.ids[i] == id && region.holds(s.points[i]));
        }
    }
}

} // verus!
