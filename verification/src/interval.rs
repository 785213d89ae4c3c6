use crate::error::QuadTreeError;
use rand::distr::uniform::SampleRange;
use rand::rngs::StdRng;
use vstd::prelude::*;

verus! {

/// A half-open range `[start, end)` of coordinates on one axis.
///
/// Coordinates are signed 64-bit integers; an interval always holds at least
/// one coordinate, so `start < end`.
#[derive(Debug, Clone, Copy, PartialEq, Eq, Structural, Hash)]
pub struct Interval {
    start: i64,
    end: i64,
}

impl Interval {
    /// The lower bound, which belongs to the interval.
    pub closed spec fn spec_start(&self) -> int {
        self.start as int
    }

    /// The upper bound, which does not belong to the interval.
    pub closed spec fn spec_end(&self) -> int {
        self.end as int
    }

    /// An interval is well formed when it is not empty.
    pub open spec fn wf(&self) -> bool {
        self.spec_start() < self.spec_end()
    }

    /// Membership of a coordinate: the start is inside, the end is not.
    pub open spec fn spec_contains(&self, value: int) -> bool {
        self.spec_start() <= value < self.spec_end()
    }

    /// Two intervals intersect when they overlap in more than a shared endpoint.
    pub open spec fn spec_intersects(&self, other: Interval) -> bool {
        self.spec_start() < other.spec_end() && other.spec_start() < self.spec_end()
    }

    /// The coordinate at which the interval is cut in two: the mean of the
    /// bounds, rounded towards the start.
    pub open spec fn spec_midpoint(&self) -> int {
        self.spec_start() + (self.spec_end() - self.spec_start()) / 2
    }

    /// The interval with the given bounds.
    pub closed spec fn spec_between(start: int, end: int) -> Interval {
        Interval { start: start as i64, end: end as i64 }
    }

    /// The pieces that `subdivide` yields: the two halves around the
    /// midpoint, or the interval itself when the midpoint falls on the start.
    pub open spec fn spec_subdivide(&self) -> Seq<Interval> {
        if self.spec_midpoint() == self.spec_start() {
            seq![*self]
        } else {
            seq![
                Self::spec_between(self.spec_start(), self.spec_midpoint()),
                Self::spec_between(self.spec_midpoint(), self.spec_end()),
            ]
        }
    }

    /// The coordinates that the interval holds.
    pub open spec fn points(&self) -> Set<int> {
        Set::new(|value: int| self.spec_contains(value))
    }

    /// Both bounds are machine integers.
    pub proof fn lemma_bounds_in_range(&self)
        ensures
            i64::MIN <= self.spec_start() <= i64::MAX,
            i64::MIN <= self.spec_end() <= i64::MAX,
    {
    }

    /// `spec_between` has the bounds it was given, when they are machine integers.
    pub proof fn lemma_between(start: int, end: int)
        requires
            i64::MIN <= start <= i64::MAX,
            i64::MIN <= end <= i64::MAX,
        ensures
            Self::spec_between(start, end).spec_start() == start,
            Self::spec_between(start, end).spec_end() == end,
    {
    }

    /// Intervals with the same bounds are the same interval.
    pub proof fn lemma_same_bounds(a: Interval, b: Interval)
        requires
            a.spec_start() == b.spec_start(),
            a.spec_end() == b.spec_end(),
        ensures
            a == b,
    {
    }

    /// A well-formed interval holds its start and does not hold its end.
    pub proof fn lemma_contains_start_not_end(&self)
        requires
            self.wf(),
        ensures
            self.spec_contains(self.spec_start()),
            !self.spec_contains(self.spec_end()),
    {
    }

    /// The midpoint of a well-formed interval lies in it, and it is the
    /// start only for an interval of width one.
    pub proof fn lemma_midpoint(&self)
        requires
            self.wf(),
        ensures
            self.spec_start() <= self.spec_midpoint() < self.spec_end(),
            self.spec_midpoint() == self.spec_start() <==> self.spec_end() == self.spec_start() + 1,
    {
    }

    /// The pieces of a well-formed interval are well formed, one or two in
    /// number, and a single piece is the interval itself.
    pub proof fn lemma_subdivide_wf(&self)
        requires
            self.wf(),
        ensures
            1 <= self.spec_subdivide().len() <= 2,
            self.spec_subdivide().len() == 1 ==> self.spec_subdivide()[0] == *self,
            self.spec_subdivide().len() == 1 <==> self.spec_midpoint() == self.spec_start(),
            forall|j: int|
                0 <= j < self.spec_subdivide().len() ==> (#[trigger] self.spec_subdivide()[j]).wf(),
    {
        self.lemma_bounds_in_range();
        Self::lemma_between(self.spec_start(), self.spec_midpoint());
        Self::lemma_between(self.spec_midpoint(), self.spec_end());
    }

    /// The two halves of a well-formed interval cover it and do not overlap:
    /// as sets of coordinates they are disjoint and their union is the
    /// interval. An interval that cannot be cut yields itself alone.
    pub proof fn lemma_subdivide_partitions(&self)
        requires
            self.wf(),
        ensures
            self.spec_subdivide().len() == 1 || self.spec_subdivide().len() == 2,
            self.spec_subdivide().len() == 1 ==> self.spec_midpoint() == self.spec_start()
                && self.spec_subdivide()[0] == *self,
            self.spec_subdivide().len() == 2 ==> {
                &&& self.spec_midpoint() != self.spec_start()
                &&& self.spec_subdivide()[0].points().union(self.spec_subdivide()[1].points())
                    == self.points()
                &&& self.spec_subdivide()[0].points().disjoint(self.spec_subdivide()[1].points())
                &&& !self.spec_subdivide()[0].spec_intersects(self.spec_subdivide()[1])
            },
    {
        self.lemma_subdivide_wf();
        self.lemma_bounds_in_range();
        Self::lemma_between(self.spec_start(), self.spec_midpoint());
        Self::lemma_between(self.spec_midpoint(), self.spec_end());
        if self.spec_subdivide().len() == 2 {
            let left = self.spec_subdivide()[0];
            let right = self.spec_subdivide()[1];
            assert(left.points().union(right.points()) =~= self.points());
        }
    }

    /// A coordinate of a well-formed interval lies in exactly one of its pieces.
    pub proof fn lemma_subdivide_one_piece(&self, value: int)
        requires
            self.wf(),
            self.spec_contains(value),
        ensures
            exists|j: int|
                0 <= j < self.spec_subdivide().len() && (
                #[trigger] self.spec_subdivide()[j]).spec_contains(value) && forall|j2: int|
                    0 <= j2 < self.spec_subdivide().len() && (
                    #[trigger] self.spec_subdivide()[j2]).spec_contains(value) ==> j2 == j,
    {
        self.lemma_bounds_in_range();
        Self::lemma_between(self.spec_start(), self.spec_midpoint());
        Self::lemma_between(self.spec_midpoint(), self.spec_end());
        let parts = self.spec_subdivide();
        if parts.len() == 1 {
            assert(parts[0].spec_contains(value));
        } else if value < self.spec_midpoint() {
            assert(parts[0].spec_contains(value));
            assert(!parts[1].spec_contains(value));
        } else {
            assert(parts[1].spec_contains(value));
            assert(!parts[0].spec_contains(value));
        }
    }

    /// Intervals that share a coordinate intersect, and well-formed
    /// intervals that intersect share a coordinate.
    pub proof fn lemma_intersects_iff_shared(a: Interval, b: Interval)
        requires
            a.wf(),
            b.wf(),
        ensures
            a.spec_intersects(b) <==> exists|value: int|
                #![trigger a.spec_contains(value)]
                a.spec_contains(value) && b.spec_contains(value),
    {
        if a.spec_intersects(b) {
            let value = if a.spec_start() <= b.spec_start() {
                b.spec_start()
            } else {
                a.spec_start()
            };
            assert(a.spec_contains(value) && b.spec_contains(value));
        }
    }

    /// Builds the interval `[start, end)`; equal or reversed bounds are rejected.
    pub fn try_new(start: i64, end: i64) -> (r: Result<Interval, QuadTreeError>)
        ensures
            start < end ==> r is Ok && r->Ok_0.spec_start() == start && r->Ok_0.spec_end() == end,
            start < end ==> r->Ok_0.wf() && r->Ok_0.spec_contains(start as int)
                && !r->Ok_0.spec_contains(end as int),
            start >= end ==> r == Err::<Interval, QuadTreeError>(QuadTreeError::InvalidRange),
    {
        if start < end {
            Ok(Interval { start, end })
        } else {
            Err(QuadTreeError::InvalidRange)
        }
    }

    /// The lower bound, which belongs to the interval.
    pub fn start(&self) -> (r: &i64)
        ensures
            *r == self.spec_start(),
    {
        &self.start
    }

    /// The upper bound, which does not belong to the interval.
    pub fn end(&self) -> (r: &i64)
        ensures
            *r == self.spec_end(),
    {
        &self.end
    }

    /// Whether `value` lies in `[start, end)`.
    pub fn contains(&self, value: &i64) -> (b: bool)
        ensures
            b == self.spec_contains(*value as int),
    {
        self.start <= *value && *value < self.end
    }

    /// Cuts the interval at its midpoint.
    ///
    /// An interval of width one cannot be cut: its midpoint is its start, and
    /// the interval is handed back alone.
    pub fn subdivide(&self) -> (parts: Vec<Interval>)
        requires
            self.wf(),
        ensures
            parts@ == self.spec_subdivide(),
            forall|j: int| 0 <= j < parts@.len() ==> (#[trigger] parts@[j]).wf(),
    {
        proof {
            self.lemma_subdivide_wf();
        }
        let width: i128 = self.end as i128 - self.start as i128;
        let midpoint: i64 = (self.start as i128 + width / 2) as i64;
        if self.start == midpoint {
            vec![*self]
        } else {
            vec![
                Interval { start: self.start, end: midpoint },
                Interval { start: midpoint, end: self.end },
            ]
        }
    }

    /// Whether the two intervals overlap; touching endpoints do not count.
    pub fn intersects(&self, other: &Interval) -> (b: bool)
        ensures
            b == self.spec_intersects(*other),
    {
        self.start < other.end && other.start < self.end
    }

    /// Draws one coordinate of the interval from `rng`.
    ///
    /// Which coordinate comes back is up to the generator; it always lies in
    /// the interval.
    pub fn sample_single(&self, rng: &mut StdRng) -> (r: Result<i64, QuadTreeError>)
        ensures
            self.wf() ==> r is Ok && self.spec_contains(r->Ok_0 as int),
            !self.wf() ==> r == Err::<i64, QuadTreeError>(QuadTreeError::InvalidRange),
    {
        match sample_range(self.start, self.end, rng) {
            Ok(value) => Ok(value),
            Err(_) => Err(QuadTreeError::InvalidRange),
        }
    }
}

/// The generator that sampling draws from.
#[verifier::external_type_specification]
#[verifier::external_body]
pub struct ExStdRng(rand::rngs::StdRng);

/// What rand reports when it cannot sample a range.
#[verifier::external_type_specification]
#[verifier::external_body]
pub struct ExUniformError(rand::distr::uniform::Error);

/// Calls `SampleRange::sample_single` of rand on the range `start..end`.
///
/// Trusted: a non-empty range yields one of its own values, an empty range
/// yields an error. Nothing is claimed about which value comes back, nor
/// about the generator afterwards.
#[verifier::external_body]
fn sample_range(start: i64, end: i64, rng: &mut StdRng) -> (r: Result<
    i64,
    rand::distr::uniform::Error,
>)
    ensures
        start < end ==> r is Ok && start <= r->Ok_0 < end,
        start >= end ==> r is Err,
{
    (start..end).sample_single(rng)
}

} // verus!
