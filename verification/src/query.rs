use crate::interval::Interval;
use crate::point::{spec_distance_squared, Point};
use crate::product::collect_exact;
use crate::region::Region;
use vstd::prelude::*;

verus! {

/// A question that can be put to a tree: which of the stored points does it
/// accept?
///
/// A query has two parts. Its bounding region is used to leave out whole
/// subtrees: a subtree whose region does not intersect it is not visited.
/// Its predicate decides on each point that is visited. A region is its own
/// query; `DistanceQuery` accepts the points of a ball.
pub trait Query<const N: usize> {
    /// The bounding region, as a specification.
    spec fn bounding(&self) -> Region<N>;

    /// The predicate, as a specification.
    spec fn accepts(&self, point: Point<N>) -> bool;

    /// The bounding region.
    fn region(&self) -> (region: &Region<N>)
        ensures
            *region == self.bounding(),
    ;

    /// Whether the query accepts the point.
    fn contains(&self, point: &Point<N>) -> (b: bool)
        ensures
            b == self.accepts(*point),
    ;
}

/// The query for all points within a given distance of a center.
pub struct DistanceQuery<const N: usize> {
    center: Point<N>,
    radius: i64,
    region: Region<N>,
}

/// Each squared difference is at most the sum of all of them.
pub proof fn lemma_distance_squared_bounds_axis(a: Seq<i64>, b: Seq<i64>, i: int)
    requires
        a.len() == b.len(),
        0 <= i < a.len(),
    ensures
        (a[i] - b[i]) * (a[i] - b[i]) <= spec_distance_squared(a, b),
    decreases a.len(),
{
    assert((a.last() - b.last()) * (a.last() - b.last()) >= 0) by (nonlinear_arith);
    if i < a.len() - 1 {
        lemma_distance_squared_bounds_axis(a.drop_last(), b.drop_last(), i);
    }
}

impl<const N: usize> DistanceQuery<N> {
    /// The center of the ball.
    pub closed spec fn spec_center(&self) -> Point<N> {
        self.center
    }

    /// The radius of the ball.
    pub closed spec fn spec_radius(&self) -> int {
        self.radius as int
    }

    /// The region that bounds the ball.
    pub closed spec fn spec_region(&self) -> Region<N> {
        self.region
    }

    /// A distance query is well formed when its radius is positive and its
    /// region spans, on every axis, from the center minus the radius to the
    /// center plus the radius.
    pub open spec fn wf(&self) -> bool {
        &&& self.spec_radius() > 0
        &&& self.spec_region()@.len() == N
        &&& self.spec_center()@.len() == N
        &&& forall|i: int|
            0 <= i < N ==> (#[trigger] self.spec_region()@[i]).spec_start() == self.spec_center()@[i]
                - self.spec_radius() && self.spec_region()@[i].spec_end() == self.spec_center()@[i]
                + self.spec_radius()
    }

    /// A point that a well-formed distance query accepts lies, on every
    /// axis, between the bounds of the query's region, the upper bound
    /// included: it is in the region unless one of its coordinates is
    /// exactly the center's plus the radius.
    pub proof fn lemma_accepted_within_bounds(&self, point: Point<N>)
        requires
            self.wf(),
            self.accepts(point),
        ensures
            forall|i: int|
                0 <= i < N ==> (#[trigger] self.bounding()@[i]).spec_start() <= point@[i]
                    <= self.bounding()@[i].spec_end(),
    {
        point.lemma_dimension();
        let c = self.spec_center()@;
        let r = self.spec_radius();
        assert forall|i: int| 0 <= i < N implies (#[trigger] self.bounding()@[i]).spec_start()
            <= point@[i] <= self.bounding()@[i].spec_end() by {
            lemma_distance_squared_bounds_axis(c, point@, i);
            let d = c[i] - point@[i];
            assert(d * d <= r * r);
            assert(-r <= d <= r) by (nonlinear_arith)
                requires
                    d * d <= r * r,
                    r > 0,
            ;
        }
    }

    /// The query for the points within `radius` of `center`. Its bounding
    /// region spans, on every axis, from the center minus the radius to the
    /// center plus the radius.
    ///
    /// The radius must be positive, and the bounds of the region must be
    /// coordinates.
    pub fn new(center: &Point<N>, radius: i64) -> (query: DistanceQuery<N>)
        requires
            radius > 0,
            forall|i: int|
                0 <= i < N ==> i64::MIN <= #[trigger] center@[i] - radius && center@[i] + radius
                    <= i64::MAX,
        ensures
            query.wf(),
            query.spec_center() == *center,
            query.spec_radius() == radius,
            query.bounding().wf(),
    {
        let values = center.dimension_values();
        let mut intervals: Vec<Interval> = Vec::with_capacity(N);
        let mut i: usize = 0;
        while i < N
            invariant
                i <= N,
                radius > 0,
                values@ == center@,
                values@.len() == N,
                forall|j: int|
                    0 <= j < N ==> i64::MIN <= #[trigger] center@[j] - radius && center@[j]
                        + radius <= i64::MAX,
                intervals@.len() == i,
                forall|j: int|
                    0 <= j < i ==> (#[trigger] intervals@[j]).spec_start() == center@[j] - radius
                        && intervals@[j].spec_end() == center@[j] + radius,
            decreases N - i,
        {
            let c = values[i];
            assert(i64::MIN <= center@[i as int] - radius);
            let interval = Interval::try_new(c - radius, c + radius).unwrap();
            intervals.push(interval);
            i += 1;
        }
        let array = collect_exact::<Interval, N>(intervals.as_slice()).unwrap();
        let region = Region::new(&array);
        DistanceQuery { center: *center, radius, region }
    }
}

impl<const N: usize> Query<N> for DistanceQuery<N> {
    open spec fn bounding(&self) -> Region<N> {
        self.spec_region()
    }

    /// The Euclidean distance from the center is at most the radius.
    open spec fn accepts(&self, point: Point<N>) -> bool {
        &&& self.spec_radius() >= 0
        &&& spec_distance_squared(self.spec_center()@, point@) <= self.spec_radius()
            * self.spec_radius()
    }

    fn region(&self) -> (region: &Region<N>) {
        &self.region
    }

    fn contains(&self, point: &Point<N>) -> (b: bool) {
        if self.radius < 0 {
            return false;
        }
        let radius: u128 = self.radius as u128;
        assert(radius * radius < u128::MAX) by (nonlinear_arith)
            requires
                radius <= 0x7fff_ffff_ffff_ffffu128,
        ;
        self.center.distance_squared(point) <= radius * radius
    }
}

} // verus!
