use crate::error::QuadTreeError;
use crate::product::collect_exact;
use crate::quadtree::Storable;
use crate::query::{DistanceQuery, Query};
use vstd::prelude::*;

verus! {

/// A point in `N`-dimensional space: one coordinate per axis.
#[derive(Copy, Clone, Eq, PartialEq, Ord, PartialOrd, Hash, Debug)]
pub struct Point<const N: usize> {
    coords: [i64; N],
}

impl<const N: usize> View for Point<N> {
    type V = Seq<i64>;

    /// The coordinates, first axis first.
    closed spec fn view(&self) -> Seq<i64> {
        self.coords@
    }
}

/// The conversion of a value into its own type, `From<T> for T` of the
/// standard library.
///
/// Trusted: the value comes back unchanged, as the standard library
/// documents.
pub assume_specification<Own>[ <Own as core::convert::From<Own>>::from ](given: Own) -> (same: Own)
    ensures
        same == given,
;

/// `coord` is what converting `value` into a coordinate gives.
pub open spec fn converts_to<T: Into<i64>>(value: T, coord: i64) -> bool {
    call_ensures(T::into, (value,), coord)
}

/// The sum over all axes of the squared difference of two coordinate lists.
pub open spec fn spec_distance_squared(a: Seq<i64>, b: Seq<i64>) -> nat
    decreases a.len(),
{
    if a.len() == 0 {
        0
    } else {
        spec_distance_squared(a.drop_last(), b.drop_last()) + ((a.last() - b.last()) * (a.last()
            - b.last())) as nat
    }
}

/// `r` is the square root of `n`, rounded down.
pub open spec fn is_sqrt(n: nat, r: nat) -> bool {
    r * r <= n < (r + 1) * (r + 1)
}

/// The largest integer whose square does not exceed `n`.
pub open spec fn spec_sqrt(n: nat) -> nat {
    choose|r: nat| is_sqrt(n, r)
}

/// Squaring is strictly monotone on the naturals, so at most one `r` has
/// `r * r <= n < (r + 1) * (r + 1)`.
pub proof fn lemma_sqrt_unique(n: nat, r: nat)
    requires
        is_sqrt(n, r),
    ensures
        spec_sqrt(n) == r,
{
    let s = spec_sqrt(n);
    assert(is_sqrt(n, s));
    if s < r {
        assert((s + 1) * (s + 1) <= r * r) by (nonlinear_arith)
            requires
                s + 1 <= r,
        ;
    }
    if r < s {
        assert((r + 1) * (r + 1) <= s * s) by (nonlinear_arith)
            requires
                r + 1 <= s,
        ;
    }
}

/// The integer square root, rounded down.
pub fn integer_sqrt(n: u128) -> (r: u64)
    ensures
        r * r <= n < (r + 1) * (r + 1),
        r == spec_sqrt(n as nat),
{
    let mut low: u128 = 0;
    let mut high: u128 = 0x1_0000_0000_0000_0000u128;
    assert(high * high > n) by (nonlinear_arith)
        requires
            high == 0x1_0000_0000_0000_0000u128,
            n <= u128::MAX,
    ;
    while high - low > 1
        invariant
            low < high <= 0x1_0000_0000_0000_0000u128,
            low * low <= n < high * high,
        decreases high - low,
    {
        let middle: u128 = low + (high - low) / 2;
        assert(middle * middle <= u128::MAX) by (nonlinear_arith)
            requires
                middle <= 0xffff_ffff_ffff_ffffu128,
        ;
        if middle * middle <= n {
            low = middle;
        } else {
            high = middle;
        }
    }
    proof {
        lemma_sqrt_unique(n as nat, low as nat);
    }
    low as u64
}

impl<const N: usize> Point<N> {
    /// A point has exactly `N` coordinates.
    pub proof fn lemma_dimension(&self)
        ensures
            self@.len() == N,
    {
    }

    /// Points with the same coordinates are the same point.
    pub proof fn lemma_same_coordinates(a: Point<N>, b: Point<N>)
        requires
            a@ == b@,
        ensures
            a == b,
    {
        assert(a.coords =~= b.coords);
    }

    /// Builds a point from coordinates as they stand, which must be exactly
    /// `N` in number.
    fn from_coordinates(coords: &[i64]) -> (r: Option<Point<N>>)
        ensures
            coords@.len() == N ==> r is Some && r->Some_0@ == coords@,
            coords@.len() != N ==> r is None,
    {
        match collect_exact::<i64, N>(coords) {
            Some(array) => Some(Point { coords: array }),
            None => None,
        }
    }

    /// Builds a point from exactly `N` values, each converted into a coordinate.
    pub fn new<T: Copy + Into<i64>>(values: &[T; N]) -> (p: Point<N>)
        ensures
            p@.len() == N,
            forall|i: int| 0 <= i < N ==> converts_to(values@[i], #[trigger] p@[i]),
    {
        let mut coords: Vec<i64> = Vec::with_capacity(N);
        let mut i: usize = 0;
        while i < N
            invariant
                i <= N,
                coords@.len() == i,
                forall|j: int| 0 <= j < i ==> converts_to(values@[j], #[trigger] coords@[j]),
            decreases N - i,
        {
            let coord: i64 = values[i].into();
            coords.push(coord);
            i += 1;
        }
        Self::from_coordinates(coords.as_slice()).unwrap()
    }

    /// Builds a point from a list of values, which must hold exactly `N` of them.
    pub fn try_new<T: Copy + Into<i64>>(values: &[T]) -> (r: Result<Point<N>, QuadTreeError>)
        ensures
            values@.len() == N ==> r is Ok && r->Ok_0@.len() == N && forall|i: int|
                0 <= i < N ==> converts_to(values@[i], #[trigger] r->Ok_0@[i]),
            values@.len() != N ==> r == Err::<Point<N>, QuadTreeError>(
                QuadTreeError::DimensionMismatch { expected: N, actual: values@.len() as usize },
            ),
    {
        if values.len() != N {
            return Err(QuadTreeError::DimensionMismatch { expected: N, actual: values.len() });
        }
        let mut coords: Vec<i64> = Vec::with_capacity(N);
        let mut i: usize = 0;
        while i < N
            invariant
                i <= N,
                values@.len() == N,
                coords@.len() == i,
                forall|j: int| 0 <= j < i ==> converts_to(values@[j], #[trigger] coords@[j]),
            decreases N - i,
        {
            let coord: i64 = values[i].into();
            coords.push(coord);
            i += 1;
        }
        Ok(Self::from_coordinates(coords.as_slice()).unwrap())
    }

    /// The coordinates, first axis first.
    pub fn dimension_values(&self) -> (values: &[i64; N])
        ensures
            values@ == self@,
    {
        &self.coords
    }

    /// The number of axes.
    pub fn dimensions(&self) -> (n: usize)
        ensures
            n == N,
            n == self@.len(),
    {
        N
    }

    /// The squared Euclidean distance to `other`, or `u128::MAX` where the
    /// sum of squares is larger than that.
    pub fn distance_squared(&self, other: &Point<N>) -> (d: u128)
        ensures
            d == if spec_distance_squared(self@, other@) <= u128::MAX {
                spec_distance_squared(self@, other@)
            } else {
                u128::MAX as nat
            },
    {
        let mut total: u128 = 0;
        let mut i: usize = 0;
        assert(self@.take(0) =~= Seq::<i64>::empty());
        while i < N
            invariant
                i <= N,
                self@.len() == N,
                other@.len() == N,
                total == if spec_distance_squared(self@.take(i as int), other@.take(i as int))
                    <= u128::MAX {
                    spec_distance_squared(self@.take(i as int), other@.take(i as int))
                } else {
                    u128::MAX as nat
                },
            decreases N - i,
        {
            let difference: i128 = self.coords[i] as i128 - other.coords[i] as i128;
            let gap: u128 = if difference < 0 {
                (-difference) as u128
            } else {
                difference as u128
            };
            assert(gap * gap <= u128::MAX && gap * gap == difference * difference)
                by (nonlinear_arith)
                requires
                    gap <= 0xffff_ffff_ffff_ffffu128,
                    gap == difference || gap == -difference,
            ;
            let square: u128 = gap * gap;
            proof {
                let a = self@.take(i as int + 1);
                let b = other@.take(i as int + 1);
                assert(a.drop_last() =~= self@.take(i as int));
                assert(b.drop_last() =~= other@.take(i as int));
                assert(a.last() == self@[i as int]);
                assert(b.last() == other@[i as int]);
            }
            total = total.saturating_add(square);
            i += 1;
        }
        assert(self@.take(N as int) =~= self@);
        assert(other@.take(N as int) =~= other@);
        total
    }

    /// The Euclidean distance to `other`, rounded down to a whole number.
    ///
    /// Where the sum of squares exceeds `u128::MAX`, the root of
    /// `u128::MAX` is returned.
    pub fn distance(&self, other: &Point<N>) -> (d: u64)
        ensures
            d == spec_sqrt(
                if spec_distance_squared(self@, other@) <= u128::MAX {
                    spec_distance_squared(self@, other@)
                } else {
                    u128::MAX as nat
                },
            ),
            spec_distance_squared(self@, other@) <= u128::MAX ==> d * d <= spec_distance_squared(
                self@,
                other@,
            ) < (d + 1) * (d + 1),
    {
        integer_sqrt(self.distance_squared(other))
    }
}

impl<const N: usize> Point<N> {
    /// The query for the points within `distance` of this one.
    ///
    /// The distance must be positive, and this point's coordinates minus and
    /// plus the distance must be coordinates.
    pub fn to_distance_based_query(&self, distance: i64) -> (query: DistanceQuery<N>)
        requires
            distance > 0,
            forall|i: int|
                0 <= i < N ==> i64::MIN <= #[trigger] self@[i] - distance && self@[i] + distance
                    <= i64::MAX,
        ensures
            query.wf(),
            query.spec_center() == *self,
            query.spec_radius() == distance,
            query.bounding().wf(),
    {
        DistanceQuery::new(self, distance)
    }
}

/// A point can be stored as it is: it is its own point and its own item.
impl<const N: usize> Storable<Point<N>, N> for Point<N> {
    open spec fn spec_point(&self) -> Point<N> {
        *self
    }

    fn point(&self) -> (point: &Point<N>) {
        self
    }

    fn item(&self) -> (item: &Point<N>)
        ensures
            *item == *self,
    {
        self
    }
}

impl<const N: usize> Default for Point<N> {
    /// The origin.
    fn default() -> (p: Self)
        ensures
            p@.len() == N,
            forall|i: int| 0 <= i < N ==> p@[i] == 0,
    {
        Point { coords: [0i64;N] }
    }
}

} // verus!
