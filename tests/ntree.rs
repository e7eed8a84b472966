use ntree::{NTree, QuadTreeRegion, Region, Vec2};

fn v(x: u32, y: u32) -> Vec2 {
    Vec2 { x, y }
}

fn collect(tree: &NTree<QuadTreeRegion, Vec2>, query: &QuadTreeRegion) -> Vec<Vec2> {
    let mut it = tree.range_query(query);
    let mut out = Vec::new();
    while let Some(p) = it.next() {
        out.push(*p);
    }
    out
}

fn sample_tree() -> NTree<QuadTreeRegion, Vec2> {
    let mut ntree = NTree::new(QuadTreeRegion::square(0, 0, 100), 4);
    ntree.insert(v(30, 30));
    ntree.insert(v(20, 20));
    ntree.insert(v(10, 10));
    ntree.insert(v(75, 75));
    ntree.insert(v(40, 70));
    ntree.insert(v(80, 20));
    ntree
}

#[test]
fn test_contains() {
    let ntree: NTree<QuadTreeRegion, Vec2> = NTree::new(QuadTreeRegion::square(0, 0, 100), 4);
    assert!(ntree.contains(&v(50, 50)));
}

#[test]
fn test_insert() {
    let mut ntree = NTree::new(QuadTreeRegion::square(0, 0, 100), 4);
    assert!(ntree.insert(v(50, 50)));
    // Regions are half open, so (50, 50) lies in the top-right quarter,
    // which is where (60, 60) is looked up.
    assert_eq!(ntree.nearby(&v(60, 60)), Some(&[v(50, 50)] as &[_]));
}

#[test]
fn test_nearby() {
    let ntree = sample_tree();
    // Bottom left corner
    assert_eq!(ntree.nearby(&v(40, 40)), Some(&[v(30, 30), v(20, 20), v(10, 10)] as &[_]));
    // Top right corner
    assert_eq!(ntree.nearby(&v(90, 90)), Some(&[v(75, 75)] as &[_]));
    // Top left corner
    assert_eq!(ntree.nearby(&v(20, 80)), Some(&[v(40, 70)] as &[_]));
    // Bottom right corner
    assert_eq!(ntree.nearby(&v(94, 12)), Some(&[v(80, 20)] as &[_]));
}

#[test]
fn test_range_query() {
    let mut ntree = NTree::new(QuadTreeRegion::square(0, 0, 100), 4);
    // Inside (y < 40)
    ntree.insert(v(30, 30));
    ntree.insert(v(20, 20));
    ntree.insert(v(10, 10));
    ntree.insert(v(60, 20));
    // Outside (y >= 40)
    ntree.insert(v(60, 59));
    ntree.insert(v(60, 45));
    assert_eq!(
        collect(&ntree, &QuadTreeRegion::new(0, 0, 100, 40)),
        vec![v(30, 30), v(20, 20), v(10, 10), v(60, 20)]
    );
}

#[test]
fn test_test_contains() {
    assert!(QuadTreeRegion::square(0, 0, 100).contains(&v(50, 50)));
}

#[test]
fn test_test_overlaps() {
    assert!(QuadTreeRegion::square(0, 0, 100).overlaps(&QuadTreeRegion::square(50, 50, 100)));
}

#[test]
fn test_test_split() {
    let fifty = 100 / 2;
    assert_eq!(
        QuadTreeRegion::square(0, 0, 100).split(),
        vec![
            QuadTreeRegion::new(0, 0, fifty, fifty),
            QuadTreeRegion::new(0, fifty, fifty, fifty),
            QuadTreeRegion::new(fifty, 0, fifty, fifty),
            QuadTreeRegion::new(fifty, fifty, fifty, fifty),
        ]
    );
}

#[test]
fn nearby_scenario_bottom_left_and_top_right() {
    let ntree = sample_tree();
    assert_eq!(ntree.nearby(&v(40, 40)).unwrap().to_vec(), vec![v(30, 30), v(20, 20), v(10, 10)]);
    assert_eq!(ntree.nearby(&v(90, 90)).unwrap().to_vec(), vec![v(75, 75)]);
}

#[test]
fn range_query_scenario_lower_band() {
    let mut ntree = sample_tree();
    ntree.insert(v(60, 20));
    ntree.insert(v(60, 59));
    ntree.insert(v(60, 45));
    let found = collect(&ntree, &QuadTreeRegion::new(0, 0, 100, 40));
    assert_eq!(found, vec![v(30, 30), v(20, 20), v(10, 10), v(80, 20), v(60, 20)]);
    assert!(!found.contains(&v(60, 59)));
    assert!(!found.contains(&v(60, 45)));
}

#[test]
fn out_of_bounds_insert_is_rejected() {
    let mut ntree = sample_tree();
    let everything = QuadTreeRegion::square(0, 0, 100);
    let before = collect(&ntree, &everything);
    assert!(!ntree.insert(v(150, 20)));
    // The region is half open: its far edges are outside.
    assert!(!ntree.insert(v(100, 100)));
    assert!(!ntree.contains(&v(100, 0)));
    assert_eq!(collect(&ntree, &everything), before);
    assert_eq!(ntree.nearby(&v(150, 20)), None);
}

#[test]
fn overflowing_bucket_splits_and_keeps_every_point() {
    let mut ntree = NTree::new(QuadTreeRegion::square(0, 0, 100), 4);
    let pts = [v(1, 1), v(30, 30), v(2, 40), v(45, 3), v(26, 26)];
    for p in pts.iter() {
        assert!(ntree.insert(*p));
    }
    // The bottom-left quadrant split into quadrants of side 25.
    assert_eq!(ntree.nearby(&v(0, 0)), Some(&[v(1, 1)] as &[_]));
    assert_eq!(ntree.nearby(&v(30, 30)), Some(&[v(30, 30), v(26, 26)] as &[_]));
    assert_eq!(ntree.nearby(&v(3, 45)), Some(&[v(2, 40)] as &[_]));
    assert_eq!(ntree.nearby(&v(45, 3)), Some(&[v(45, 3)] as &[_]));
    let mut all = collect(&ntree, &QuadTreeRegion::square(0, 0, 100));
    all.sort_by_key(|p| (p.x, p.y));
    let mut expected = pts.to_vec();
    expected.sort_by_key(|p| (p.x, p.y));
    assert_eq!(all, expected);
    for p in pts.iter() {
        assert!(ntree.nearby(p).unwrap().len() <= 4);
    }
}

#[test]
fn range_query_over_disjoint_region_is_empty() {
    let ntree = sample_tree();
    assert_eq!(collect(&ntree, &QuadTreeRegion::new(200, 200, 10, 10)), Vec::<Vec2>::new());
}

#[test]
fn repeated_queries_give_the_same_results() {
    let ntree = sample_tree();
    let q = QuadTreeRegion::new(0, 0, 60, 100);
    let first = collect(&ntree, &q);
    let second = collect(&ntree, &q);
    assert_eq!(first, vec![v(30, 30), v(20, 20), v(10, 10), v(40, 70)]);
    assert_eq!(first, second);
    assert_eq!(ntree.nearby(&v(5, 5)), ntree.nearby(&v(5, 5)));
}

#[test]
fn range_query_stops_early_and_resumes() {
    let ntree = sample_tree();
    let q = QuadTreeRegion::square(0, 0, 100);
    let mut it = ntree.range_query(&q);
    assert_eq!(it.next(), Some(&v(30, 30)));
    assert_eq!(it.next(), Some(&v(20, 20)));
    let rest: Vec<Vec2> = {
        let mut out = Vec::new();
        while let Some(p) = it.next() {
            out.push(*p);
        }
        out
    };
    assert_eq!(rest, vec![v(10, 10), v(40, 70), v(80, 20), v(75, 75)]);
    assert_eq!(it.next(), None);
}

#[test]
fn point_joins_end_of_its_bucket_and_earlier_points_stay_found() {
    let mut ntree = NTree::new(QuadTreeRegion::square(0, 0, 100), 2);
    assert!(ntree.insert(v(10, 10)));
    assert!(ntree.insert(v(40, 40)));
    assert_eq!(ntree.nearby(&v(0, 0)), Some(&[v(10, 10), v(40, 40)] as &[_]));
    // The third point overflows the bucket, which splits at 25.
    assert!(ntree.insert(v(12, 12)));
    assert_eq!(ntree.nearby(&v(10, 10)), Some(&[v(10, 10), v(12, 12)] as &[_]));
    assert_eq!(ntree.nearby(&v(40, 40)), Some(&[v(40, 40)] as &[_]));
    assert_eq!(ntree.nearby(&v(30, 5)), Some(&[] as &[Vec2]));
}

#[test]
fn full_indivisible_bucket_refuses_point() {
    let mut ntree = NTree::new(QuadTreeRegion::square(0, 0, 1), 1);
    assert!(ntree.insert(v(0, 0)));
    assert!(!ntree.insert(v(0, 0)));
    assert_eq!(collect(&ntree, &QuadTreeRegion::square(0, 0, 1)), vec![v(0, 0)]);
}

#[test]
fn zero_bucket_limit_stores_nothing() {
    let mut ntree = NTree::new(QuadTreeRegion::square(0, 0, 8), 0);
    assert!(!ntree.insert(v(3, 5)));
    assert_eq!(collect(&ntree, &QuadTreeRegion::square(0, 0, 8)), Vec::<Vec2>::new());
}

#[test]
fn region_split_of_odd_width_covers_every_column() {
    let parts = QuadTreeRegion::new(0, 0, 5, 1).split();
    assert_eq!(parts.len(), 4);
    for x in 0..5 {
        assert!(parts.iter().any(|r| r.contains(&v(x, 0))));
    }
    assert!(!QuadTreeRegion::new(0, 0, 1, 1).divisible());
    assert!(QuadTreeRegion::new(0, 0, 2, 1).divisible());
}
