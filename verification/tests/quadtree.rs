use itertools::Itertools;
use quadtree::error::QuadTreeError;
use quadtree::interval::Interval;
use quadtree::point::Point;
use quadtree::quadtree::{QuadTree, Storable};
use quadtree::query::DistanceQuery;
use quadtree::region::Region;
use rand::{Rng, SeedableRng};

/// Coordinates per unit of length, for the tests that need fractions of a
/// unit: one coordinate is the step between `1.0` and the next float.
const TICKS_PER_UNIT: f64 = 4503599627370496.0;

fn ticks(value: f64) -> i64 {
    (value * TICKS_PER_UNIT) as i64
}

pub struct TestStruct(Point<2>, String);

impl Storable<TestStruct, 2> for TestStruct {
    fn spec_point(&self) -> Point<2> {
        self.0
    }

    fn point(&self) -> &Point<2> {
        &self.0
    }

    fn item(&self) -> &Self {
        self
    }
}

fn square(side: i64) -> Region<2> {
    Region::new(&[Interval::try_new(0, side).unwrap(), Interval::try_new(0, side).unwrap()])
}

#[test]
fn test_quadtree_insert_outside_region() {
    let region = Region::new(&[
        Interval::try_new(0, 10).unwrap(),
        Interval::try_new(0, 10).unwrap(),
    ]);
    let mut quadtree = QuadTree::new(&region, 4);

    let point_outside = TestStruct(Point::new(&[11, 5]), "data".to_string());
    assert!(quadtree.insert(point_outside).is_err());
}

#[test]
fn test_quadtree_initialise() {
    let region = Region::new(&[
        Interval::try_new(0, 10).unwrap(),
        Interval::try_new(0, 10).unwrap(),
    ]);
    let _: QuadTree<2, TestStruct> = QuadTree::new(&region, 4);
}

#[test]
fn test_quadtree_insert_below_capacity() {
    let region = Region::new(&[
        Interval::try_new(0, 10).unwrap(),
        Interval::try_new(0, 10).unwrap(),
    ]);
    let mut quadtree = QuadTree::new(&region, 4);

    for i in 0..4 {
        quadtree
            .insert(TestStruct(Point::new(&[i, 0]), "data".to_string()))
            .unwrap();
    }

    assert_eq!(quadtree.points().len(), 4);
    assert!(quadtree.subtrees().is_none());
}

#[test]
fn test_quadtree_insert_above_capacity() {
    let region = Region::new(&[
        Interval::try_new(0, 10).unwrap(),
        Interval::try_new(0, 10).unwrap(),
    ]);
    let mut quadtree = QuadTree::new(&region, 4);

    for i in 0..4 {
        quadtree
            .insert(TestStruct(Point::new(&[i, 0]), "data".to_string()))
            .unwrap();
    }

    assert_eq!(quadtree.points().len(), 4);
    assert!(quadtree.subtrees().is_none());

    // Insert one more point to trigger subdivision
    quadtree
        .insert(TestStruct(
            Point::new(&[5, 5]),
            "data_subdivided".to_string(),
        ))
        .unwrap();

    // Check that the quadtree has subdivided
    assert!(quadtree.subtrees().is_some());
    let subtrees = quadtree.subtrees().unwrap();
    assert_eq!(subtrees.len(), 4);

    // Assert the point went into only 1 subtree
    let subtree_total_points: usize = subtrees.iter().map(|st| st.points().len()).sum();
    assert_eq!(subtree_total_points, 1);
    assert!(subtrees
        .iter()
        .flat_map(|subtree| subtree.points().iter())
        .map(|p| p.item().1 == "data_subdivided")
        .all(|x| x));
}

#[test]
fn test_quadtree_query() {
    let region = Region::new(&[
        Interval::try_new(0, 10).unwrap(),
        Interval::try_new(0, 10).unwrap(),
    ]);
    let mut quadtree = QuadTree::new(&region, 4);

    for i in 0..4 {
        quadtree
            .insert(TestStruct(Point::new(&[i, 0]), "data".to_string()))
            .unwrap();
    }

    // Construct query region that should only contain only the first two points
    let query_region = Region::new(&[
        Interval::try_new(0, 2).unwrap(),
        Interval::try_new(0, 10).unwrap(),
    ]);

    let results: Vec<_> = quadtree.query(&query_region);

    assert_eq!(results.len(), 2);
}

#[test]
fn test_quadtree_query_subdivided() {
    let region = Region::new(&[
        Interval::try_new(0, 10).unwrap(),
        Interval::try_new(0, 10).unwrap(),
    ]);
    // Capacity of 2 will ensure lots of subdivision when inserting 10 items
    let mut quadtree = QuadTree::new(&region, 2);

    for i in 0..10 {
        quadtree
            .insert(TestStruct(Point::new(&[i, 0]), "data".to_string()))
            .unwrap();
    }

    // Construct query region
    let query_region = Region::new(&[
        Interval::try_new(0, 10).unwrap(),
        Interval::try_new(0, 10).unwrap(),
    ]);

    let results: Vec<_> = quadtree.query(&query_region);

    assert_eq!(results.len(), 10);
}

#[test]
fn test_quadtree_many_points() {
    let region = Region::new(&[
        Interval::try_new(0, 100).unwrap(),
        Interval::try_new(0, 100).unwrap(),
    ]);

    // Capacity of 100 will ensure lots of subdivision when inserting 100,000 items
    let mut quadtree = QuadTree::new(&region, 100);
    let mut rng = rand_chacha::ChaCha8Rng::seed_from_u64(42);

    for _ in 0..100_000 {
        // Choose random x and y coordinates
        let x = rng.random_range(0..100);
        let y = rng.random_range(0..100);
        quadtree
            .insert(TestStruct(Point::new(&[x, y]), "data".to_string()))
            .unwrap();
    }

    // Construct query region
    let query_region = Region::new(&[
        Interval::try_new(0, 10).unwrap(),
        Interval::try_new(0, 10).unwrap(),
    ]);

    let results: Vec<_> = quadtree.query(&query_region);
    println!("{}", results.len());
    assert!((900..=1100).contains(&results.len()));
}

#[test]
fn test_quadtree_single_point_interval() {
    const COUNT: usize = 10;
    // Create a quadtree where the region is a single point
    let region = Region::new(&[
        Interval::try_new(ticks(1.0), ticks(1.0 + f64::EPSILON)).unwrap(),
        Interval::try_new(ticks(1.0), ticks(1.0 + f64::EPSILON)).unwrap(),
    ]);
    let mut quadtree = QuadTree::new(&region, 1);

    // Insert 10 points into the quadtree
    for i in 0..COUNT {
        quadtree
            .insert(TestStruct(
                Point::new(&[ticks(1.0), ticks(1.0)]),
                format!("P{}", i),
            ))
            .unwrap();
    }

    // Query the quadtree
    let results: Vec<_> = quadtree.query(&region);
    assert_eq!(results.len(), 10);
    // Assert there are 10 unique strings
    let unique_results: Vec<_> = results.iter().map(|item| item.item().1.clone()).collect();
    assert_eq!(
        unique_results.into_iter().unique().collect::<Vec<_>>().len(),
        COUNT
    );
}

#[test]
fn perf_smoke_test_neighbours() {
    const POINT_COUNT: usize = 2000;
    // Create a Vec of random points
    let mut rng = rand::rng();
    let points: Vec<Point<2>> = (0..POINT_COUNT)
        .map(|_| {
            Point::new(&[
                ticks(rng.random_range(0.0..1000.0)),
                ticks(rng.random_range(0.0..1000.0)),
            ])
        })
        .collect();

    // Create a QuadTree with a region that covers the points
    let region = Region::new(&[
        Interval::try_new(ticks(0.0), ticks(1000.0)).unwrap(),
        Interval::try_new(ticks(0.0), ticks(1000.0)).unwrap(),
    ]);
    let mut quadtree = QuadTree::new(&region, 10);
    for point in &points {
        quadtree.insert(point.clone()).unwrap();
    }

    // Loop over the points and count how many points have a neighbour within a distance of 10.0
    // not using the quadtree, first - but a double loop
    let start = std::time::Instant::now();
    let count_non_quadtree = points
        .iter()
        .filter(|point| {
            points
                .iter()
                .filter(|other| point != other && point.distance(other) < ticks(10.0) as u64)
                .count()
                > 0
        })
        .count();
    let elapsed_non_quadtree = start.elapsed();
    assert_ne!(
        POINT_COUNT, count_non_quadtree,
        "All points are close-by neighbours?"
    );

    // Now use the quadtree to count how many points have a neighbour within a distance of 10.0
    // Reset the timer
    let start = std::time::Instant::now();
    let count_quadtree = points
        .iter()
        .filter(|&point| {
            let query_region = DistanceQuery::new(point, ticks(10.0));
            quadtree
                .query(&query_region)
                .into_iter()
                .filter(|other_point| *other_point != point)
                .count()
                > 0
        })
        .count();
    let elapsed_quadtree = start.elapsed();

    println!("{:?}", elapsed_non_quadtree);
    println!("{:?}", elapsed_quadtree);
    println!("{}", count_quadtree);

    // Quad tree should be faster than non-quadtree but find the same number of points
    assert_eq!(count_quadtree, count_non_quadtree);
    assert!(elapsed_quadtree < elapsed_non_quadtree);
}

#[test]
fn perf_smoke_test_region() {
    const POINT_COUNT: usize = 100000;
    // Create a Vec of random points
    let mut rng = rand::rng();
    let points: Vec<Point<2>> = (0..POINT_COUNT)
        .map(|_| {
            Point::new(&[
                ticks(rng.random_range(0.0..1000.0)),
                ticks(rng.random_range(0.0..1000.0)),
            ])
        })
        .collect();

    // Create a QuadTree with a region that covers the points
    let region = Region::new(&[
        Interval::try_new(ticks(0.0), ticks(1000.0)).unwrap(),
        Interval::try_new(ticks(0.0), ticks(1000.0)).unwrap(),
    ]);
    let mut quadtree = QuadTree::new(&region, 10);
    for point in &points {
        quadtree.insert(point.clone()).unwrap();
    }

    let search_region = Region::new(&[
        Interval::try_new(ticks(550.0), ticks(600.0)).unwrap(),
        Interval::try_new(ticks(0.0), ticks(200.0)).unwrap(),
    ]);

    // Loop over the points and count how many points are in the search region
    // not using the quadtree, first
    let start = std::time::Instant::now();
    let count_non_quadtree = points
        .iter()
        .filter(|point| search_region.contains(&point.point()))
        .count();
    let elapsed_non_quadtree = start.elapsed();
    assert_ne!(
        POINT_COUNT, count_non_quadtree,
        "All points are in search region?"
    );

    // Now use the quadtree to count how many points are in the search region
    // Reset the timer
    let start = std::time::Instant::now();
    let count_quadtree = quadtree.query(&search_region).len();
    let elapsed_quadtree = start.elapsed();

    println!("{:?}", elapsed_non_quadtree);
    println!("{:?}", elapsed_quadtree);
    println!("{}", count_quadtree);

    // Quad tree should be faster than non-quadtree but find the same number of points
    assert_eq!(count_quadtree, count_non_quadtree);
    assert!(elapsed_quadtree < elapsed_non_quadtree);
}

#[test]
fn quadtree_new_is_an_empty_leaf() {
    let region = square(10);
    let quadtree: QuadTree<2, Point<2>> = QuadTree::new(&region, 3);
    assert_eq!(quadtree.region(), &region);
    assert_eq!(quadtree.capacity(), 3);
    assert!(quadtree.points().is_empty());
    assert!(quadtree.subtrees().is_none());
    assert!(quadtree.query(&region).is_empty());
    assert_eq!(quadtree.regions(), vec![region]);
}

#[test]
fn quadtree_rejected_insert_leaves_the_tree_unchanged() {
    let region = square(10);
    let mut quadtree = QuadTree::new(&region, 2);
    let mut untouched = QuadTree::new(&region, 2);
    for point in [Point::new(&[1, 1]), Point::new(&[2, 2])] {
        quadtree.insert(point).unwrap();
        untouched.insert(point).unwrap();
    }
    // the bucket is full: a point outside must not make the leaf split
    assert_eq!(quadtree.insert(Point::new(&[10, 0])), Err(QuadTreeError::OutOfBounds));
    assert_eq!(quadtree.insert(Point::new(&[-1, 5])), Err(QuadTreeError::OutOfBounds));
    assert!(quadtree.subtrees().is_none());
    assert!(quadtree == untouched);
    // with children as well
    quadtree.insert(Point::new(&[7, 7])).unwrap();
    untouched.insert(Point::new(&[7, 7])).unwrap();
    assert_eq!(quadtree.insert(Point::new(&[5, 10])), Err(QuadTreeError::OutOfBounds));
    assert!(quadtree == untouched);
    assert_eq!(quadtree.query(&region).len(), 3);
}

#[test]
fn quadtree_splits_on_the_insert_after_the_bucket_is_full() {
    let region = square(10);
    let mut quadtree = QuadTree::new(&region, 4);
    for x in 0..4 {
        quadtree.insert(Point::new(&[x, 0])).unwrap();
    }
    assert!(quadtree.subtrees().is_none());
    quadtree.insert(Point::new(&[5, 5])).unwrap();
    // the bucket of the node stays as it was, the new point is in the
    // child over [5, 10) x [5, 10), which is the last of the four
    assert_eq!(quadtree.points().len(), 4);
    let subtrees = quadtree.subtrees().unwrap();
    assert_eq!(subtrees.len(), 4);
    let sizes: Vec<usize> = subtrees.iter().map(|subtree| subtree.points().len()).collect();
    assert_eq!(sizes, vec![0, 0, 0, 1]);
    assert_eq!(subtrees[3].points(), &vec![Point::new(&[5, 5])]);
    assert_eq!(
        subtrees[3].region(),
        &Region::new(&[Interval::try_new(5, 10).unwrap(), Interval::try_new(5, 10).unwrap()])
    );
    assert!(subtrees.iter().all(|subtree| subtree.subtrees().is_none()));
    assert!(subtrees.iter().all(|subtree| subtree.capacity() == 4));
    assert_eq!(quadtree.regions().len(), 5);
    assert_eq!(quadtree.regions()[0], region);
    assert_eq!(quadtree.regions()[4], *subtrees[3].region());
}

#[test]
fn quadtree_query_returns_what_was_inserted() {
    let region = square(64);
    for capacity in [1, 2, 3, 7, 100] {
        let mut quadtree = QuadTree::new(&region, capacity);
        let mut inserted = Vec::new();
        for i in 0..60 {
            let point = Point::new(&[(i * 37) % 64, (i * 11 + 5) % 64]);
            quadtree.insert(point).unwrap();
            inserted.push(point);
        }
        // one point several times
        for _ in 0..5 {
            quadtree.insert(Point::new(&[9, 9])).unwrap();
            inserted.push(Point::new(&[9, 9]));
        }
        let mut found: Vec<Point<2>> = quadtree.query(&region).into_iter().copied().collect();
        found.sort();
        inserted.sort();
        assert_eq!(found, inserted);
    }
}

#[test]
fn quadtree_query_does_not_depend_on_insertion_order() {
    let region = square(32);
    let points: Vec<Point<2>> = (0..40).map(|i| Point::new(&[(i * 7) % 32, (i * 13) % 32])).collect();
    let mut forward = QuadTree::new(&region, 3);
    let mut backward = QuadTree::new(&region, 3);
    for point in points.iter() {
        forward.insert(*point).unwrap();
    }
    for point in points.iter().rev() {
        backward.insert(*point).unwrap();
    }
    let query = Region::new(&[Interval::try_new(4, 20).unwrap(), Interval::try_new(0, 17).unwrap()]);
    let mut from_forward: Vec<Point<2>> = forward.query(&query).into_iter().copied().collect();
    let mut from_backward: Vec<Point<2>> = backward.query(&query).into_iter().copied().collect();
    from_forward.sort();
    from_backward.sort();
    assert_eq!(from_forward, from_backward);
    let mut expected: Vec<Point<2>> = points.iter().copied().filter(|p| query.contains(p)).collect();
    expected.sort();
    assert_eq!(from_forward, expected);
}

#[test]
fn quadtree_query_hands_out_items_in_storage_order() {
    let region = square(10);
    let mut quadtree = QuadTree::new(&region, 2);
    for (x, y, name) in [(1, 1, "a"), (8, 8, "b"), (2, 2, "c"), (7, 2, "d"), (1, 2, "e")] {
        quadtree.insert(TestStruct(Point::new(&[x, y]), name.to_string())).unwrap();
    }
    let names: Vec<&str> = quadtree.query(&region).into_iter().map(|found| found.1.as_str()).collect();
    // the bucket of the root, then the children in the order of their boxes
    assert_eq!(names, vec!["a", "b", "c", "e", "d"]);
}

#[test]
fn quadtree_leaf_that_cannot_be_cut_goes_over_its_capacity() {
    let region = Region::new(&[Interval::try_new(3, 4).unwrap(), Interval::try_new(-1, 0).unwrap()]);
    let mut quadtree = QuadTree::new(&region, 2);
    for _ in 0..1000 {
        quadtree.insert(Point::new(&[3, -1])).unwrap();
    }
    assert!(quadtree.subtrees().is_none());
    assert_eq!(quadtree.points().len(), 1000);
    assert_eq!(quadtree.query(&region).len(), 1000);
}

#[test]
fn quadtree_takes_many_equal_points_in_a_wide_region() {
    let region = square(1 << 40);
    let mut quadtree = QuadTree::new(&region, 2);
    for _ in 0..200 {
        quadtree.insert(Point::new(&[12345, 678])).unwrap();
    }
    assert_eq!(quadtree.query(&region).len(), 200);
}

#[test]
fn quadtree_has_fewer_children_where_an_axis_cannot_be_cut() {
    let region = Region::new(&[Interval::try_new(0, 1).unwrap(), Interval::try_new(0, 8).unwrap()]);
    let mut quadtree = QuadTree::new(&region, 1);
    quadtree.insert(Point::new(&[0, 1])).unwrap();
    quadtree.insert(Point::new(&[0, 6])).unwrap();
    let subtrees = quadtree.subtrees().unwrap();
    assert_eq!(subtrees.len(), 2);
    assert_eq!(subtrees[1].points(), &vec![Point::new(&[0, 6])]);
}

#[test]
fn quadtree_works_on_a_line() {
    let region = Region::new(&[Interval::try_new(-100, 100).unwrap()]);
    let mut quadtree = QuadTree::new(&region, 2);
    for x in -100..100 {
        quadtree.insert(Point::new(&[x])).unwrap();
    }
    assert_eq!(quadtree.insert(Point::new(&[100])), Err(QuadTreeError::OutOfBounds));
    assert_eq!(quadtree.subtrees().unwrap().len(), 2);
    let query = Region::new(&[Interval::try_new(-5, 7).unwrap()]);
    let mut found: Vec<i64> = quadtree.query(&query).into_iter().map(|p| p.dimension_values()[0]).collect();
    found.sort();
    assert_eq!(found, (-5..7).collect::<Vec<i64>>());
}

#[test]
fn quadtree_works_in_space() {
    let axis = Interval::try_new(0, 8).unwrap();
    let region = Region::new(&[axis, axis, axis]);
    let mut quadtree = QuadTree::new(&region, 3);
    for x in 0..8 {
        for y in 0..8 {
            for z in 0..8 {
                quadtree.insert(Point::new(&[x, y, z])).unwrap();
            }
        }
    }
    assert_eq!(quadtree.subtrees().unwrap().len(), 8);
    assert_eq!(quadtree.query(&region).len(), 512);
    let ball = DistanceQuery::new(&Point::new(&[4, 4, 4]), 1);
    let mut found: Vec<Point<3>> = quadtree.query(&ball).into_iter().copied().collect();
    found.sort();
    assert_eq!(
        found,
        vec![
            Point::new(&[3, 4, 4]),
            Point::new(&[4, 3, 4]),
            Point::new(&[4, 4, 3]),
            Point::new(&[4, 4, 4]),
            Point::new(&[4, 4, 5]),
            Point::new(&[4, 5, 4]),
            Point::new(&[5, 4, 4]),
        ]
    );
}

#[test]
fn quadtree_lists_regions_node_by_node() {
    let region = square(4);
    let mut quadtree = QuadTree::new(&region, 1);
    quadtree.insert(Point::new(&[0, 0])).unwrap();
    quadtree.insert(Point::new(&[3, 3])).unwrap();
    quadtree.insert(Point::new(&[3, 2])).unwrap();
    let cell = |x: (i64, i64), y: (i64, i64)| {
        Region::new(&[Interval::try_new(x.0, x.1).unwrap(), Interval::try_new(y.0, y.1).unwrap()])
    };
    assert_eq!(
        quadtree.regions(),
        vec![
            cell((0, 4), (0, 4)),
            cell((0, 2), (0, 2)),
            cell((0, 2), (2, 4)),
            cell((2, 4), (0, 2)),
            cell((2, 4), (2, 4)),
            cell((2, 3), (2, 3)),
            cell((2, 3), (3, 4)),
            cell((3, 4), (2, 3)),
            cell((3, 4), (3, 4)),
        ]
    );
}
