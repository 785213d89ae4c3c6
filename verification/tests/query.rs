use quadtree::interval::Interval;
use quadtree::point::Point;
use quadtree::quadtree::{QuadTree, Storable};
use quadtree::query::{DistanceQuery, Query};
use quadtree::region::Region;
use rand::{Rng, SeedableRng};

pub struct TestStruct(Point<2>);

impl Storable<TestStruct, 2> for TestStruct {
    fn spec_point(&self) -> Point<2> {
        self.0
    }

    fn point(&self) -> &Point<2> {
        &self.0
    }

    fn item(&self) -> &Self {
        self
    }
}

#[test]
fn test_circle_query() {
    let center = Point::new(&[5, 5]);
    let radius = 3;
    let circle_query = DistanceQuery::new(&center, radius);

    assert_eq!(
        circle_query.region(),
        &Region::new(&[
            Interval::try_new(2, 8).unwrap(),
            Interval::try_new(2, 8).unwrap(),
        ])
    );

    let point_inside = Point::new(&[6, 6]);
    assert!(circle_query.contains(&point_inside));

    let point_outside = Point::new(&[9, 9]);
    assert!(!circle_query.contains(&point_outside));

    // Test with quadtree (we can assert the value is almost PI!)
    let region = Region::new(&[
        Interval::try_new(0, 100).unwrap(),
        Interval::try_new(0, 100).unwrap(),
    ]);

    // Capacity of 100 will ensure lots of subdivision when inserting 100,000 items
    let mut quadtree = QuadTree::new(&region, 100);
    let mut rng = rand_chacha::ChaCha8Rng::seed_from_u64(42);

    for _ in 0..100_000 {
        // Choose random x and y coordinates
        let x = rng.random_range(0..100);
        let y = rng.random_range(0..100);
        quadtree.insert(TestStruct(Point::new(&[x, y]))).unwrap();
    }

    // Construct query region
    let square_region = Region::new(&[
        Interval::try_new(0, 100).unwrap(),
        Interval::try_new(0, 100).unwrap(),
    ]);
    let square_count = quadtree.query(&square_region).len();

    // Construct circle query
    let circle_query = DistanceQuery::new(&Point::new(&[50, 50]), 50);
    let circle_count = quadtree.query(&circle_query).len();
    assert_ne!(circle_count, square_count);
    let ratio = circle_count as f64 / square_count as f64;
    assert!((ratio - std::f64::consts::PI / 4.0).abs() <= 0.01);
}

#[test]
fn distance_query_accepts_the_closed_ball() {
    let query = DistanceQuery::new(&Point::new(&[0, 0]), 5);
    assert!(query.contains(&Point::new(&[3, 4])));
    assert!(query.contains(&Point::new(&[5, 0])));
    assert!(query.contains(&Point::new(&[0, -5])));
    assert!(!query.contains(&Point::new(&[4, 4])));
    assert!(!query.contains(&Point::new(&[6, 0])));
    assert!(query.contains(&Point::new(&[0, 0])));
}

#[test]
fn distance_query_region_spans_center_minus_and_plus_radius() {
    let query = Point::new(&[10, -20, 30]).to_distance_based_query(7);
    assert_eq!(
        query.region(),
        &Region::new(&[
            Interval::try_new(3, 17).unwrap(),
            Interval::try_new(-27, -13).unwrap(),
            Interval::try_new(23, 37).unwrap(),
        ])
    );
}

#[test]
fn distance_query_decides_exactly_for_far_points() {
    let query = DistanceQuery::new(&Point::new(&[0, 0]), i64::MAX);
    assert!(query.contains(&Point::new(&[i64::MAX, 0])));
    assert!(!query.contains(&Point::new(&[i64::MAX, 1])));
    assert!(!query.contains(&Point::new(&[i64::MIN, i64::MIN])));
}

#[test]
fn distance_query_finds_points_of_the_tree_in_the_ball() {
    let region = Region::new(&[Interval::try_new(0, 16).unwrap(), Interval::try_new(0, 16).unwrap()]);
    let mut quadtree = QuadTree::new(&region, 2);
    let mut all = Vec::new();
    for x in 0..16 {
        for y in 0..16 {
            let point = Point::new(&[x, y]);
            quadtree.insert(point).unwrap();
            all.push(point);
        }
    }
    let center = Point::new(&[6, 9]);
    let query = DistanceQuery::new(&center, 4);
    let found: Vec<Point<2>> = quadtree.query(&query).into_iter().copied().collect();
    // every find is a stored point of the ball, and no point is found twice
    assert!(found.iter().all(|p| center.distance_squared(p) <= 16 && all.contains(p)));
    let mut distinct = found.clone();
    distinct.sort();
    distinct.dedup();
    assert_eq!(distinct.len(), found.len());
    // every point of the ball that lies in the query's bounding region is found
    for point in all.iter() {
        if center.distance_squared(point) <= 16 && query.region().contains(point) {
            assert!(found.contains(point));
        }
    }
    assert!(found.contains(&Point::new(&[2, 9])));
    assert!(found.contains(&Point::new(&[6, 5])));
    assert!(!found.contains(&Point::new(&[2, 8])));
}

#[test]
fn distance_query_may_miss_a_point_on_the_upper_bound_of_its_region() {
    // The ball around (5, 5) with radius 3 holds (8, 5), but the bounding
    // region [2, 8) x [2, 8) does not. In a tree over [0, 16) x [0, 16) the
    // point lies in the child over [8, 16) x [0, 8), which the bounding
    // region does not intersect.
    let region = Region::new(&[Interval::try_new(0, 16).unwrap(), Interval::try_new(0, 16).unwrap()]);
    let boundary = Point::new(&[8, 5]);
    let query = DistanceQuery::new(&Point::new(&[5, 5]), 3);
    assert!(query.contains(&boundary));
    assert!(!query.region().contains(&boundary));

    let mut first = QuadTree::new(&region, 1);
    first.insert(boundary).unwrap();
    first.insert(Point::new(&[1, 1])).unwrap();
    assert_eq!(first.query(&query), vec![&boundary]);

    let mut second = QuadTree::new(&region, 1);
    second.insert(Point::new(&[1, 1])).unwrap();
    second.insert(boundary).unwrap();
    assert!(second.query(&query).is_empty());
}
