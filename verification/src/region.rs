use crate::error::QuadTreeError;
use crate::interval::Interval;
use crate::point::Point;
use crate::query::Query;
use crate::product::{
    cartesian_product, collect_exact, lemma_product_entries, lemma_product_len,
    lemma_product_of_pairs, lemma_product_one_hit, lemma_product_row_len, one_hit, row_hits,
    rows, spec_product,
};
use vstd::arithmetic::power2::pow2;
use rand::rngs::StdRng;
use vstd::prelude::*;

verus! {

/// An axis-aligned box in `N`-dimensional space: one interval per axis.
#[derive(Debug, Clone, PartialEq)]
pub struct Region<const N: usize> {
    intervals: [Interval; N],
}

impl<const N: usize> View for Region<N> {
    type V = Seq<Interval>;

    /// The intervals, first axis first.
    closed spec fn view(&self) -> Seq<Interval> {
        self.intervals@
    }
}

/// A box, given by its intervals, holds the coordinates `p` when every
/// interval holds the coordinate of its axis.
pub open spec fn box_contains(b: Seq<Interval>, p: Seq<i64>) -> bool {
    &&& b.len() == p.len()
    &&& forall|i: int| 0 <= i < b.len() ==> (#[trigger] b[i]).spec_contains(p[i] as int)
}

/// Two boxes of the same dimension intersect when their intervals
/// intersect on every axis.
pub open spec fn box_intersects(a: Seq<Interval>, b: Seq<Interval>) -> bool {
    &&& a.len() == b.len()
    &&& forall|i: int| 0 <= i < a.len() ==> (#[trigger] a[i]).spec_intersects(b[i])
}

/// Every interval of the box is well formed.
pub open spec fn box_wf(b: Seq<Interval>) -> bool {
    forall|i: int| 0 <= i < b.len() ==> (#[trigger] b[i]).wf()
}

/// For each axis the pieces that its interval is cut into.
pub open spec fn box_axes(b: Seq<Interval>) -> Seq<Seq<Interval>> {
    b.map_values(|interval: Interval| interval.spec_subdivide())
}

/// The boxes that a box is cut into: one for each choice of a piece per
/// axis, in lexicographic order with the last axis varying fastest.
pub open spec fn box_subdivide(b: Seq<Interval>) -> Seq<Seq<Interval>> {
    spec_product(box_axes(b))
}

/// The boxes that a well-formed box is cut into are well formed and have
/// the dimension of the box, and there is at least one of them.
pub proof fn lemma_box_subdivide_wf(b: Seq<Interval>)
    requires
        box_wf(b),
    ensures
        box_subdivide(b).len() >= 1,
        forall|k: int|
            0 <= k < box_subdivide(b).len() ==> (#[trigger] box_subdivide(b)[k]).len() == b.len()
                && box_wf(box_subdivide(b)[k]),
{
    let axes = box_axes(b);
    assert forall|i: int| 0 <= i < axes.len() implies (#[trigger] axes[i]).len() >= 1 by {
        b[i].lemma_subdivide_wf();
    }
    lemma_product_len(axes);
    lemma_product_row_len(axes);
    assert forall|k: int| 0 <= k < box_subdivide(b).len() implies box_wf(
        #[trigger] box_subdivide(b)[k],
    ) by {
        let row = box_subdivide(b)[k];
        assert forall|i: int| 0 <= i < row.len() implies (#[trigger] row[i]).wf() by {
            let j = lemma_product_entries(axes, k, i);
            b[i].lemma_subdivide_wf();
        }
    }
}

/// A box that is cut into a single box is cut into itself: this is the
/// case exactly when no axis can be cut.
pub proof fn lemma_box_subdivide_single(b: Seq<Interval>)
    requires
        box_wf(b),
    ensures
        box_subdivide(b).len() == 1 <==> forall|i: int|
            0 <= i < b.len() ==> (#[trigger] b[i]).spec_midpoint() == b[i].spec_start(),
        box_subdivide(b).len() == 1 ==> box_subdivide(b)[0] == b,
{
    let axes = box_axes(b);
    assert forall|i: int| 0 <= i < axes.len() implies (#[trigger] axes[i]).len() >= 1 by {
        b[i].lemma_subdivide_wf();
    }
    lemma_product_len(axes);
    lemma_product_row_len(axes);
    if box_subdivide(b).len() == 1 {
        assert forall|i: int| 0 <= i < b.len() implies (#[trigger] b[i]).spec_midpoint()
            == b[i].spec_start() by {
            assert(axes[i].len() == 1);
            b[i].lemma_subdivide_wf();
        }
        let row = box_subdivide(b)[0];
        assert forall|i: int| 0 <= i < b.len() implies row[i] == b[i] by {
            let j = lemma_product_entries(axes, 0, i);
            assert(axes[i].len() == 1);
            b[i].lemma_subdivide_wf();
        }
        assert(row =~= b);
    }
    if forall|i: int| 0 <= i < b.len() ==> (#[trigger] b[i]).spec_midpoint() == b[i].spec_start() {
        assert forall|i: int| 0 <= i < axes.len() implies (#[trigger] axes[i]).len() == 1 by {
            assert(b[i].spec_midpoint() == b[i].spec_start());
        }
    }
}

/// A box in which every axis can be cut is cut into two to the `n` boxes,
/// `n` being its dimension.
pub proof fn lemma_box_subdivide_count(b: Seq<Interval>)
    requires
        box_wf(b),
        forall|i: int| 0 <= i < b.len() ==> (#[trigger] b[i]).spec_midpoint() != b[i].spec_start(),
    ensures
        box_subdivide(b).len() == pow2(b.len()),
{
    let axes = box_axes(b);
    assert forall|i: int| 0 <= i < axes.len() implies (#[trigger] axes[i]).len() == 2 by {
        assert(b[i].spec_midpoint() != b[i].spec_start());
    }
    lemma_product_of_pairs(axes);
}

/// Whatever lies in one of the boxes that a box is cut into lies in the box.
pub proof fn lemma_box_subdivide_within(b: Seq<Interval>, k: int, p: Seq<i64>)
    requires
        box_wf(b),
        0 <= k < box_subdivide(b).len(),
        box_contains(box_subdivide(b)[k], p),
    ensures
        box_contains(b, p),
{
    let axes = box_axes(b);
    lemma_product_row_len(axes);
    let row = box_subdivide(b)[k];
    assert forall|i: int| 0 <= i < b.len() implies (#[trigger] b[i]).spec_contains(
        p[i] as int,
    ) by {
        let j = lemma_product_entries(axes, k, i);
        assert(row[i].spec_contains(p[i] as int));
        b[i].lemma_bounds_in_range();
        Interval::lemma_between(b[i].spec_start(), b[i].spec_midpoint());
        Interval::lemma_between(b[i].spec_midpoint(), b[i].spec_end());
        b[i].lemma_midpoint();
    }
}

/// Whatever lies in a well-formed box lies in exactly one of the boxes
/// that it is cut into. The lemma hands back the index of that box.
pub proof fn lemma_box_subdivide_partitions(b: Seq<Interval>, p: Seq<i64>) -> (k: int)
    requires
        box_wf(b),
        box_contains(b, p),
    ensures
        0 <= k < box_subdivide(b).len(),
        box_contains(box_subdivide(b)[k], p),
        forall|k2: int|
            0 <= k2 < box_subdivide(b).len() && box_contains(#[trigger] box_subdivide(b)[k2], p)
                ==> k2 == k,
{
    let axes = box_axes(b);
    let hit = |i: int, interval: Interval| 0 <= i < p.len() && interval.spec_contains(p[i] as int);
    assert forall|i: int| 0 <= i < axes.len() implies one_hit(#[trigger] axes[i], i, hit) by {
        assert(b[i].spec_contains(p[i] as int));
        b[i].lemma_subdivide_one_piece(p[i] as int);
        let parts = b[i].spec_subdivide();
        let j = choose|j: int|
            0 <= j < parts.len() && (#[trigger] parts[j]).spec_contains(p[i] as int) && forall|
                j2: int,
            |
                0 <= j2 < parts.len() && (#[trigger] parts[j2]).spec_contains(p[i] as int) ==> j2
                    == j;
        assert(hit(i, axes[i][j]));
        assert forall|j2: int| 0 <= j2 < axes[i].len() && hit(i, #[trigger] axes[i][j2]) implies j2
            == j by {
            assert(parts[j2].spec_contains(p[i] as int));
        }
    }
    let k = lemma_product_one_hit(axes, hit);
    lemma_product_row_len(axes);
    let row = box_subdivide(b)[k];
    assert(box_contains(row, p)) by {
        assert forall|i: int| 0 <= i < row.len() implies (#[trigger] row[i]).spec_contains(
            p[i] as int,
        ) by {
            assert(hit(i, row[i]));
        }
    }
    assert forall|k2: int|
        0 <= k2 < box_subdivide(b).len() && box_contains(
            #[trigger] box_subdivide(b)[k2],
            p,
        ) implies k2 == k by {
        let row2 = box_subdivide(b)[k2];
        assert forall|i: int| 0 <= i < row2.len() implies hit(i, #[trigger] row2[i]) by {
            assert(row2[i].spec_contains(p[i] as int));
        }
        assert(row_hits(row2, hit));
    }
    k
}

/// Boxes that share a point intersect.
pub proof fn lemma_box_shared_point(a: Seq<Interval>, b: Seq<Interval>, p: Seq<i64>)
    requires
        box_contains(a, p),
        box_contains(b, p),
    ensures
        box_intersects(a, b),
{
    assert forall|i: int| 0 <= i < a.len() implies (#[trigger] a[i]).spec_intersects(b[i]) by {
        assert(a[i].spec_contains(p[i] as int));
        assert(b[i].spec_contains(p[i] as int));
    }
}

impl<const N: usize> Region<N> {
    /// A region is well formed when each of its intervals is.
    pub open spec fn wf(&self) -> bool {
        box_wf(self@)
    }

    /// Membership of a point: every axis must hold the point's coordinate.
    pub open spec fn spec_contains(&self, point: Point<N>) -> bool {
        box_contains(self@, point@)
    }

    /// Two regions intersect when they do on every axis.
    pub open spec fn spec_intersects(&self, other: Region<N>) -> bool {
        box_intersects(self@, other@)
    }

    /// The boxes that `subdivide` yields, each as its list of intervals.
    pub open spec fn spec_subdivide(&self) -> Seq<Seq<Interval>> {
        box_subdivide(self@)
    }

    /// A region has exactly `N` intervals.
    pub proof fn lemma_dimension(&self)
        ensures
            self@.len() == N,
    {
    }

    /// Regions with the same intervals are the same region.
    pub proof fn lemma_same_intervals(a: Region<N>, b: Region<N>)
        requires
            a@ == b@,
        ensures
            a == b,
    {
        assert(a.intervals =~= b.intervals);
    }

    /// A point of a well-formed region lies in exactly one of the boxes
    /// that the region is cut into, also where some axis cannot be cut and
    /// the boxes are fewer than two per axis.
    pub proof fn lemma_subdivide_partitions(&self, point: Point<N>) -> (k: int)
        requires
            self.wf(),
            self.spec_contains(point),
        ensures
            0 <= k < self.spec_subdivide().len(),
            box_contains(self.spec_subdivide()[k], point@),
            forall|k2: int|
                0 <= k2 < self.spec_subdivide().len() && box_contains(
                    #[trigger] self.spec_subdivide()[k2],
                    point@,
                ) ==> k2 == k,
    {
        lemma_box_subdivide_partitions(self@, point@)
    }

    /// Builds a region from exactly `N` intervals.
    pub fn new(intervals: &[Interval; N]) -> (region: Region<N>)
        ensures
            region@ == intervals@,
    {
        Region { intervals: *intervals }
    }

    /// Builds a region from a list of intervals, which must hold exactly `N`
    /// of them.
    pub fn try_new(intervals: &[Interval]) -> (r: Result<Region<N>, QuadTreeError>)
        ensures
            intervals@.len() == N ==> r is Ok && r->Ok_0@ == intervals@,
            intervals@.len() != N ==> r == Err::<Region<N>, QuadTreeError>(
                QuadTreeError::DimensionMismatch { expected: N, actual: intervals@.len() as usize },
            ),
    {
        if intervals.len() != N {
            return Err(QuadTreeError::DimensionMismatch { expected: N, actual: intervals.len() });
        }
        let array = collect_exact::<Interval, N>(intervals);
        Ok(Region { intervals: array.unwrap() })
    }

    /// The intervals, first axis first.
    pub fn intervals(&self) -> (intervals: &[Interval; N])
        ensures
            intervals@ == self@,
    {
        &self.intervals
    }

    /// Whether the point lies in the region.
    pub fn contains(&self, point: &Point<N>) -> (b: bool)
        ensures
            b == self.spec_contains(*point),
    {
        let values = point.dimension_values();
        let mut i: usize = 0;
        while i < N
            invariant
                i <= N,
                self@.len() == N,
                values@ == point@,
                values@.len() == N,
                forall|j: int| 0 <= j < i ==> (#[trigger] self@[j]).spec_contains(point@[j] as int),
            decreases N - i,
        {
            if !self.intervals[i].contains(&values[i]) {
                return false;
            }
            i += 1;
        }
        true
    }

    /// Cuts the region into boxes: every choice of one piece per axis, in
    /// lexicographic order with the last axis varying fastest.
    ///
    /// An axis that cannot be cut contributes its whole interval, so a
    /// region in which no axis can be cut yields itself alone.
    pub fn subdivide(&self) -> (boxes: Vec<[Interval; N]>)
        requires
            self.wf(),
        ensures
            boxes@.len() == self.spec_subdivide().len(),
            forall|k: int|
                0 <= k < boxes@.len() ==> (#[trigger] boxes@[k])@ == self.spec_subdivide()[k],
    {
        let mut axes: Vec<Vec<Interval>> = Vec::with_capacity(N);
        let mut i: usize = 0;
        while i < N
            invariant
                i <= N,
                self@.len() == N,
                self.wf(),
                axes@.len() == i,
                forall|j: int| 0 <= j < i ==> (#[trigger] axes@[j])@ == self@[j].spec_subdivide(),
            decreases N - i,
        {
            axes.push(self.intervals[i].subdivide());
            i += 1;
        }
        assert(rows(axes@) =~= box_axes(self@));
        let products = cartesian_product(&axes);
        proof {
            lemma_product_row_len(box_axes(self@));
        }
        let mut boxes: Vec<[Interval; N]> = Vec::with_capacity(products.len());
        let mut k: usize = 0;
        while k < products.len()
            invariant
                k <= products@.len(),
                self@.len() == N,
                rows(products@) == self.spec_subdivide(),
                forall|k2: int|
                    0 <= k2 < self.spec_subdivide().len() ==> (
                    #[trigger] self.spec_subdivide()[k2]).len() == N,
                boxes@.len() == k,
                forall|k2: int|
                    0 <= k2 < k ==> (#[trigger] boxes@[k2])@ == self.spec_subdivide()[k2],
            decreases products@.len() - k,
        {
            assert(rows(products@)[k as int] == products@[k as int]@);
            let array = collect_exact::<Interval, N>(products[k].as_slice());
            boxes.push(array.unwrap());
            k += 1;
        }
        boxes
    }

    /// Whether the two regions overlap on every axis.
    pub fn intersects(&self, other: &Region<N>) -> (b: bool)
        ensures
            b == self.spec_intersects(*other),
    {
        let mut i: usize = 0;
        while i < N
            invariant
                i <= N,
                self@.len() == N,
                other@.len() == N,
                forall|j: int| 0 <= j < i ==> (#[trigger] self@[j]).spec_intersects(other@[j]),
            decreases N - i,
        {
            if !self.intervals[i].intersects(&other.intervals[i]) {
                return false;
            }
            i += 1;
        }
        true
    }

    /// Draws a point of the region from `rng`, one coordinate per axis.
    ///
    /// Which point comes back is up to the generator; it always lies in the
    /// region.
    pub fn sample_point(&self, rng: &mut StdRng) -> (point: Point<N>)
        requires
            self.wf(),
        ensures
            self.spec_contains(point),
    {
        let mut values: Vec<i64> = Vec::with_capacity(N);
        let mut i: usize = 0;
        while i < N
            invariant
                i <= N,
                self@.len() == N,
                self.wf(),
                values@.len() == i,
                forall|j: int| 0 <= j < i ==> (#[trigger] self@[j]).spec_contains(values@[j] as int),
            decreases N - i,
        {
            let value = self.intervals[i].sample_single(rng).unwrap();
            values.push(value);
            i += 1;
        }
        Point::try_new(values.as_slice()).unwrap()
    }
}

/// A region is the query for the points that it contains: it is its own
/// bounding region, and its predicate is membership.
impl<const N: usize> Query<N> for Region<N> {
    open spec fn bounding(&self) -> Region<N> {
        *self
    }

    open spec fn accepts(&self, point: Point<N>) -> bool {
        self.spec_contains(point)
    }

    fn region(&self) -> (region: &Region<N>) {
        self
    }

    fn contains(&self, point: &Point<N>) -> (b: bool) {
        self.contains(point)
    }
}

/// A region and a point agree on their dimension at compile time:
/// `Region<1>::contains` takes a `Point<1>` and nothing else.
///
/// This compiles:
/// ```
/// use quadtree::{interval::Interval, point::Point, region::Region};
/// let axis = Interval::try_new(1, 5).unwrap();
/// let region = Region::new(&[axis]);
/// let point = Point::new(&[3]);
/// assert!(region.contains(&point));
/// ```
///
/// This does not, because the point has two coordinates and the region
/// one axis:
/// ```compile_fail
/// use quadtree::{interval::Interval, point::Point, region::Region};
/// let axis = Interval::try_new(1, 5).unwrap();
/// let region = Region::new(&[axis]);
/// let point = Point::new(&[3, 4]);
/// region.contains(&point);
/// ```
pub fn test_compile_fail_different_dimensions() {
}

} // verus!
