use std::cell::Cell;

use quadtree::{Position, QuadTree, QuadTreeInsertError};

#[derive(Debug, Default, Clone, Copy, PartialEq)]
struct TestStruct {
    pos: (i32, i32),
}

impl Position for TestStruct {
    fn position(&self) -> (i32, i32) {
        self.pos
    }
}

#[derive(Debug)]
struct Unit {
    name: u32,
    pos: Cell<(i32, i32)>,
}

impl Position for Unit {
    fn position(&self) -> (i32, i32) {
        self.pos.get()
    }
}

fn names(found: &[&TestStruct]) -> Vec<(i32, i32)> {
    let mut v: Vec<(i32, i32)> = found.iter().map(|t| t.pos).collect();
    v.sort();
    v
}

#[test]
fn test_new_quadtree() {
    let qt = QuadTree::<TestStruct>::new(10, 1, (0, 0), (1, 1));
    assert_eq!(qt.lines().len(), 4);
    assert!(qt.search_radius((0, 0), 10).is_empty());
}

#[test]
fn test_split_quadtree() {
    let mut qt = QuadTree::<TestStruct>::new(5, 100, (0, 0), (10_000, 10_000));

    let n = 10_000;
    for i in 0..n {
        let t = TestStruct { pos: (i, i) };
        let pos = t.position();
        qt.insert(t, pos)
            .unwrap_or_else(|_| panic!("Error when inserting item! {:?}", t));
    }
}

#[test]
fn test_stacked_units() {
    let mut qt = QuadTree::<TestStruct>::new(5, 100, (0, 0), (10_000, 10_000));

    let n = 10_000;
    for _ in 0..n {
        let t = TestStruct { pos: (1_000, 1_000) };
        let pos = t.position();
        qt.insert(t, pos)
            .unwrap_or_else(|_| panic!("Error when inserting item! {:?}", t));
    }
}

#[test]
fn insert_outside_region_is_refused() {
    let mut qt = QuadTree::<TestStruct>::new(2, 1, (0, 0), (100, 100));
    for pos in [(-1, 50), (101, 50), (50, -1), (50, 101), (-5, -5), (200, 200)] {
        assert_eq!(qt.insert(TestStruct { pos }, pos), Err(QuadTreeInsertError));
    }
    assert!(qt.search_radius((50, 50), 1_000).is_empty());
    // No handle was used up: the first accepted item gets handle 0.
    qt.insert(TestStruct { pos: (10, 10) }, (10, 10)).unwrap();
    assert_eq!(qt.remove(0, (10, 10)), Some(TestStruct { pos: (10, 10) }));
}

#[test]
fn corners_of_region_are_inside() {
    let mut qt = QuadTree::<TestStruct>::new(1, 1, (-10, -20), (30, 40));
    for pos in [(-10, -20), (30, -20), (-10, 40), (30, 40), (10, 10)] {
        assert_eq!(qt.insert(TestStruct { pos }, pos), Ok(()));
    }
    assert_eq!(qt.search_radius((10, 10), 100).len(), 5);
}

#[test]
fn round_trip_insert_remove() {
    let mut qt = QuadTree::<TestStruct>::new(3, 1, (0, 0), (1_000, 1_000));
    for i in 0..20 {
        let pos = (i * 37 % 1_000, i * 91 % 1_000);
        qt.insert(TestStruct { pos }, pos).unwrap();
    }
    let x = TestStruct { pos: (500, 500) };
    qt.insert(x, x.pos).unwrap();
    assert_eq!(qt.remove(20, (500, 500)), Some(x));
    for r in [0, 1, 10, 100, 2_000] {
        assert!(qt.search_radius((500, 500), r).iter().all(|t| t.pos != (500, 500)));
        assert!(!qt.search_radius_ids((500, 500), r).contains(&20));
    }
    assert_eq!(qt.remove(20, (500, 500)), None);
}

#[test]
fn remove_at_wrong_leaf_is_absent() {
    let mut qt = QuadTree::<TestStruct>::new(1, 1, (0, 0), (100, 100));
    qt.insert(TestStruct { pos: (10, 10) }, (10, 10)).unwrap();
    qt.insert(TestStruct { pos: (90, 90) }, (90, 90)).unwrap();
    assert_eq!(qt.remove(0, (90, 90)), None);
    assert_eq!(qt.remove(0, (500, 500)), None);
    assert_eq!(qt.remove(7, (10, 10)), None);
    assert_eq!(qt.search_radius((50, 50), 100).len(), 2);
    assert_eq!(qt.remove(0, (10, 10)), Some(TestStruct { pos: (10, 10) }));
}

#[test]
fn radius_matches_linear_scan() {
    let mut qt = QuadTree::<TestStruct>::new(4, 2, (-500, -500), (500, 500));
    let mut seed: u64 = 12_345;
    let mut all = Vec::new();
    for _ in 0..600 {
        seed = seed.wrapping_mul(6_364_136_223_846_793_005).wrapping_add(1_442_695_040_888_963_407);
        let x = ((seed >> 33) % 1_001) as i32 - 500;
        seed = seed.wrapping_mul(6_364_136_223_846_793_005).wrapping_add(1_442_695_040_888_963_407);
        let y = ((seed >> 33) % 1_001) as i32 - 500;
        qt.insert(TestStruct { pos: (x, y) }, (x, y)).unwrap();
        all.push((x, y));
    }
    for (c, r) in [((0, 0), 0u32), ((0, 0), 100), ((-500, -500), 250), ((123, -77), 60), ((499, 3), 700), ((10, 10), 1)] {
        let mut expected: Vec<(i32, i32)> = all
            .iter()
            .copied()
            .filter(|p| {
                let dx = (p.0 - c.0) as i64;
                let dy = (p.1 - c.1) as i64;
                dx * dx + dy * dy <= (r as i64) * (r as i64)
            })
            .collect();
        expected.sort();
        assert_eq!(names(&qt.search_radius(c, r)), expected);
        let ids = qt.search_radius_ids(c, r);
        assert!(ids.len() >= expected.len());
    }
}

#[test]
fn split_keeps_every_item() {
    let mut qt = QuadTree::<TestStruct>::new(4, 1, (0, 0), (64, 64));
    let points = [(1, 1), (60, 2), (3, 50), (40, 40), (32, 32)];
    for p in points {
        qt.insert(TestStruct { pos: p }, p).unwrap();
    }
    // The fifth insertion split the root into four quadrants.
    assert_eq!(qt.lines().len(), 20);
    assert_eq!(qt.search_radius((32, 32), 46).len(), 5);
    let mut ids = qt.search_radius_ids((32, 32), 46);
    ids.sort();
    assert_eq!(ids, vec![0, 1, 2, 3, 4]);
}

#[test]
fn identical_positions_stay_retrievable() {
    let mut qt = QuadTree::<TestStruct>::new(2, 4, (0, 0), (1_024, 1_024));
    for _ in 0..500 {
        qt.insert(TestStruct { pos: (7, 7) }, (7, 7)).unwrap();
    }
    assert_eq!(qt.search_radius((7, 7), 0).len(), 500);
    assert_eq!(qt.search_radius((1_000, 1_000), 10).len(), 0);
}

#[test]
fn removals_in_any_order_keep_leaves_searchable() {
    let mut qt = QuadTree::<TestStruct>::new(3, 1, (0, 0), (100, 100));
    let mut pts = Vec::new();
    for i in 0..40 {
        let p = ((i * 13) % 100, (i * 29) % 100);
        qt.insert(TestStruct { pos: p }, p).unwrap();
        pts.push(p);
    }
    for i in (0..40).rev().step_by(3) {
        assert_eq!(qt.remove(i as u64, pts[i]), Some(TestStruct { pos: pts[i] }));
    }
    for i in 0..40 {
        let expected = if (0..40).rev().step_by(3).any(|j| j == i) { None } else { Some(TestStruct { pos: pts[i] }) };
        assert_eq!(qt.remove(i as u64, pts[i]), expected);
    }
    assert!(qt.search_radius((50, 50), 200).is_empty());
}

#[test]
fn concrete_two_item_scenario() {
    // Region (0,0)-(1000,1000), one handle per leaf, smallest edge 10.
    let mut qt = QuadTree::<TestStruct>::new(1, 10, (0, 0), (1_000, 1_000));
    let a = TestStruct { pos: (100, 100) };
    let b = TestStruct { pos: (200, 200) };
    qt.insert(a, a.pos).unwrap();
    assert_eq!(qt.lines().len(), 4);
    qt.insert(b, b.pos).unwrap();
    assert!(qt.lines().len() > 4);
    assert_eq!(names(&qt.search_radius((0, 0), 500)), vec![(100, 100), (200, 200)]);
    assert!(qt.search_radius((0, 0), 50).is_empty());
}

#[test]
fn lines_start_with_region_edges() {
    let qt = QuadTree::<TestStruct>::new(1, 1, (2, 3), (10, 20));
    assert_eq!(
        qt.lines(),
        vec![
            ((2, 3), (2, 20)),
            ((2, 3), (10, 3)),
            ((10, 20), (2, 20)),
            ((10, 20), (10, 3)),
        ]
    );
}

#[test]
fn split_children_cover_quadrants() {
    let mut qt = QuadTree::<TestStruct>::new(1, 1, (0, 0), (10, 10));
    qt.insert(TestStruct { pos: (1, 1) }, (1, 1)).unwrap();
    qt.insert(TestStruct { pos: (9, 9) }, (9, 9)).unwrap();
    let lines = qt.lines();
    // Top-left child spans (0,0)-(5,5); top-right (5,0)-(10,5).
    assert_eq!(lines[4], ((0, 0), (0, 5)));
    assert_eq!(lines[5], ((0, 0), (5, 0)));
    assert_eq!(lines[8], ((5, 0), (5, 5)));
    assert_eq!(lines[9], ((5, 0), (10, 0)));
    // Points on the midpoint lines are routed to the lower side.
    qt.insert(TestStruct { pos: (5, 5) }, (5, 5)).unwrap();
    qt.insert(TestStruct { pos: (5, 9) }, (5, 9)).unwrap();
    qt.insert(TestStruct { pos: (9, 5) }, (9, 5)).unwrap();
    assert_eq!(qt.remove(2, (5, 5)), Some(TestStruct { pos: (5, 5) }));
    assert_eq!(qt.remove(3, (5, 9)), Some(TestStruct { pos: (5, 9) }));
    assert_eq!(qt.remove(4, (9, 5)), Some(TestStruct { pos: (9, 5) }));
}

#[test]
fn reinsert_follows_moved_item() {
    let mut qt = QuadTree::<Unit>::new(1, 1, (0, 0), (100, 100));
    for (i, p) in [(10, 10), (90, 90), (90, 10)].iter().enumerate() {
        let u = Unit { name: i as u32, pos: Cell::new(*p) };
        qt.insert(u, *p).unwrap();
    }
    {
        let found = qt.search_radius((10, 10), 0);
        assert_eq!(found.len(), 1);
        found[0].pos.set((12, 88));
    }
    qt.reinsert(0, (10, 10)).unwrap();
    assert!(qt.search_radius((10, 10), 1).is_empty());
    let found = qt.search_radius((12, 88), 0);
    assert_eq!(found.len(), 1);
    assert_eq!(found[0].name, 0);
    assert_eq!(qt.remove(0, (12, 88)).map(|u| u.name), Some(0));
}

#[test]
fn reinsert_outside_region_changes_nothing() {
    let mut qt = QuadTree::<Unit>::new(1, 1, (0, 0), (100, 100));
    qt.insert(Unit { name: 7, pos: Cell::new((40, 40)) }, (40, 40)).unwrap();
    qt.search_radius((40, 40), 0)[0].pos.set((400, 40));
    assert_eq!(qt.reinsert(0, (40, 40)), Err(QuadTreeInsertError));
    assert_eq!(qt.search_radius((40, 40), 0).len(), 1);
}

#[test]
fn relocate_moves_filing_position() {
    let mut qt = QuadTree::<TestStruct>::new(2, 1, (0, 0), (100, 100));
    for p in [(5, 5), (6, 6), (7, 7), (95, 95)] {
        qt.insert(TestStruct { pos: p }, p).unwrap();
    }
    assert_eq!(qt.relocate(1, (6, 6), (80, 20)), Ok(()));
    assert_eq!(qt.search_radius_ids((80, 20), 0), vec![1]);
    // A wrong previous position still moves the handle.
    assert_eq!(qt.relocate(2, (50, 50), (20, 80)), Ok(()));
    assert_eq!(qt.search_radius_ids((20, 80), 0), vec![2]);
    assert!(!qt.search_radius_ids((7, 7), 0).contains(&2));
    assert_eq!(qt.relocate(0, (5, 5), (101, 5)), Err(QuadTreeInsertError));
    assert_eq!(qt.remove(0, (5, 5)), Some(TestStruct { pos: (5, 5) }));
}

#[test]
fn get_returns_filed_item() {
    let mut qt = QuadTree::<TestStruct>::new(2, 1, (0, 0), (10, 10));
    qt.insert(TestStruct { pos: (3, 4) }, (3, 4)).unwrap();
    assert_eq!(qt.get(0), Some(&TestStruct { pos: (3, 4) }));
    assert_eq!(qt.get(1), None);
    qt.remove(0, (3, 4));
    assert_eq!(qt.get(0), None);
}

#[test]
fn ids_query_returns_whole_reached_leaves() {
    // While the root is a single leaf, every handle is a candidate.
    let mut qt = QuadTree::<TestStruct>::new(4, 1, (0, 0), (100, 100));
    qt.insert(TestStruct { pos: (1, 1) }, (1, 1)).unwrap();
    qt.insert(TestStruct { pos: (99, 99) }, (99, 99)).unwrap();
    let mut ids = qt.search_radius_ids((1, 1), 0);
    ids.sort();
    assert_eq!(ids, vec![0, 1]);
    assert_eq!(qt.search_radius((1, 1), 0).len(), 1);
    // After a split, only the leaves whose region the circle reaches count.
    qt.insert(TestStruct { pos: (2, 2) }, (2, 2)).unwrap();
    qt.insert(TestStruct { pos: (3, 3) }, (3, 3)).unwrap();
    qt.insert(TestStruct { pos: (4, 4) }, (4, 4)).unwrap();
    assert_eq!(qt.lines().len(), 20);
    assert!(!qt.search_radius_ids((1, 1), 0).contains(&1));
}
