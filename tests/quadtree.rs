use morton_table::morton_table::MortonTable;
use morton_table::quadtree::Quadtree;
use morton_table::{Point, Value};
use rand::rngs::StdRng;
use rand::{Rng, SeedableRng};
use std::collections::HashSet;

#[test]
fn quadtree_test_range_query_all() {
    let mut rng = rand::thread_rng();

    let mut table = Quadtree::new(Point::new(0, 0), Point::new(128, 128));

    for i in 0..256 {
        let p = Point::new(rng.gen_range(0, 128), rng.gen_range(0, 128));
        table.insert(p, Value(i)).unwrap();
    }

    let mut res = Vec::new();
    table.find_in_range(&Point::new(0, 0), 0xeeee, &mut res);

    assert_eq!(res.len(), 256);
}

#[test]
fn quadtree_get_by_id() {
    let mut rng = rand::thread_rng();

    let mut table = Quadtree::new(Point::new(0, 0), Point::new(128, 128));

    let mut points = HashSet::with_capacity(64);

    for _ in 0..64 {
        let p = Point::new(rng.gen_range(0, 128), rng.gen_range(0, 128));
        let [x, y] = p.0;
        let i = 1000 * x + y;
        points.insert((p, Value(i)));
    }

    for (p, e) in points.iter() {
        table.insert(*p, *e).unwrap();
    }

    for p in points {
        let found = table.get_by_id(&p.0);
        assert_eq!(found, Some(&p.1),);
    }
}

fn sorted(mut v: Vec<(Point, Value)>) -> Vec<(Point, Value)> {
    v.sort_by_key(|(p, v)| (p.0, v.0));
    v
}

#[test]
fn quadtree_rejects_points_outside_its_box() {
    let mut tree = Quadtree::new(Point::new(10, 10), Point::new(20, 20));
    assert_eq!(tree.insert(Point::new(9, 15), Value(1)), Err(Point::new(9, 15)));
    assert_eq!(tree.insert(Point::new(15, 21), Value(1)), Err(Point::new(15, 21)));
    assert_eq!(tree.insert(Point::new(20, 20), Value(1)), Ok(()));
    assert!(tree.contains_key(&Point::new(20, 20)));
    assert!(!tree.contains_key(&Point::new(9, 15)));
    assert!(tree.intersects(&Point::new(10, 20)));
    assert!(!tree.intersects(&Point::new(21, 20)));
    assert!(tree.intersects_aabb(&Point::new(0, 0), &Point::new(10, 10)));
    assert!(!tree.intersects_aabb(&Point::new(0, 0), &Point::new(9, 30)));
}

#[test]
fn quadtree_splits_and_keeps_every_row() {
    let mut tree = Quadtree::default();
    let mut rows = Vec::new();
    for i in 0..1000u32 {
        let p = Point::new(i * 37 % 1009, i * 91 % 997);
        rows.push((p, Value(i)));
        tree.insert(p, Value(i)).unwrap();
    }
    for (p, v) in rows.iter() {
        assert_eq!(tree.get_by_id(p), Some(v));
    }
    let mut out = Vec::new();
    tree.find_in_range(&Point::new(500, 500), 2000, &mut out);
    assert_eq!(sorted(out.iter().map(|r| **r).collect()), sorted(rows.clone()));
    tree.clear();
    assert!(!tree.contains_key(&rows[0].0));
    assert_eq!(tree.get_by_id(&rows[0].0), None);
}

#[test]
fn quadtree_keeps_every_copy_of_a_point() {
    let mut tree = Quadtree::new(Point::new(0, 0), Point::new(3, 3));
    for i in 0..40 {
        assert_eq!(tree.insert(Point::new(2, 1), Value(i)), Ok(()));
    }
    assert_eq!(tree.insert(Point::new(4, 1), Value(99)), Err(Point::new(4, 1)));
    assert_eq!(tree.insert(Point::new(1, 2), Value(5)), Ok(()));
    assert_eq!(tree.get_by_id(&Point::new(1, 2)), Some(&Value(5)));
    assert_eq!(tree.get_by_id(&Point::new(2, 1)), Some(&Value(0)));
    let mut out = Vec::new();
    tree.find_in_range(&Point::new(2, 1), 1, &mut out);
    assert_eq!(out.len(), 40);
    let mut removed = 0;
    while tree.delete(&Point::new(2, 1)).is_some() {
        removed += 1;
    }
    assert_eq!(removed, 40);
    assert!(tree.contains_key(&Point::new(1, 2)));
    tree.clear();
    assert!(!tree.contains_key(&Point::new(1, 2)));
    assert_eq!(tree.insert(Point::new(2, 1), Value(7)), Ok(()));
}

#[test]
fn quadtree_and_table_agree_on_many_duplicates() {
    let mut rows = Vec::new();
    for i in 0..100u32 {
        rows.push((Point::new(7, 7), Value(i)));
        rows.push((Point::new(i % 10, i % 13), Value(1000 + i)));
    }
    let table = MortonTable::from_iterator(rows.clone());
    let tree = Quadtree::from_iterator(rows.clone());
    let mut a = Vec::new();
    table.find_in_range(&Point::new(7, 7), 3, &mut a);
    let mut b = Vec::new();
    tree.find_in_range(&Point::new(7, 7), 3, &mut b);
    assert_eq!(
        sorted(a.iter().map(|(p, v)| (*p, **v)).collect()),
        sorted(b.iter().map(|r| **r).collect())
    );
    // 100 copies, plus the row of i = 7
    assert_eq!(a.iter().filter(|(p, _)| *p == Point::new(7, 7)).count(), 101);
    for x in 0..12 {
        for y in 0..14 {
            let p = Point::new(x, y);
            assert_eq!(table.contains_key(&p), tree.contains_key(&p));
            assert_eq!(table.get_by_id(&p).is_some(), tree.get_by_id(&p).is_some());
        }
    }
}

#[test]
fn quadtree_partial_query() {
    let pts = [(8, 6), (9, 10), (11, 8), (6, 8), (16, 8), (12, 11), (0, 0), (15, 20)];
    let rows = pts
        .iter()
        .enumerate()
        .map(|(i, (x, y))| (Point::new(*x, *y), Value(i as u32)))
        .collect::<Vec<_>>();
    let tree = Quadtree::from_iterator(rows);
    let mut out = Vec::new();
    tree.find_in_range(&Point::new(8, 8), 4, &mut out);
    let got = out.iter().map(|r| (r.0 .0[0], r.0 .0[1])).collect::<HashSet<_>>();
    let want = [(8, 6), (9, 10), (11, 8), (6, 8)].iter().copied().collect::<HashSet<_>>();
    assert_eq!(got, want);
    assert_eq!(out.len(), 4);
}

#[test]
fn quadtree_and_table_answer_alike() {
    let mut rng = StdRng::seed_from_u64(5);
    let mut rows = Vec::new();
    for i in 0..2000u32 {
        rows.push((Point::new(rng.gen_range(0, 300), rng.gen_range(0, 300)), Value(i)));
    }
    let table = MortonTable::from_iterator(rows.clone());
    let tree = Quadtree::from_iterator(rows.clone());
    for _ in 0..40 {
        let c = Point::new(rng.gen_range(0, 300), rng.gen_range(0, 300));
        let r = rng.gen_range(0, 120);
        let mut a = Vec::new();
        table.find_in_range(&c, r, &mut a);
        let mut b = Vec::new();
        tree.find_in_range(&c, r, &mut b);
        assert_eq!(
            sorted(a.iter().map(|(p, v)| (*p, **v)).collect()),
            sorted(b.iter().map(|r| **r).collect())
        );
    }
    for x in 0..310 {
        let p = Point::new(x, (x * 7) % 300);
        assert_eq!(table.contains_key(&p), tree.contains_key(&p));
        match (table.get_by_id(&p), tree.get_by_id(&p)) {
            (Some(a), Some(b)) => {
                assert!(rows.contains(&(p, *a)));
                assert!(rows.contains(&(p, *b)));
            }
            (None, None) => {}
            _ => panic!("the two indexes disagree on {:?}", p),
        }
    }
}

#[test]
fn quadtree_from_empty_input_covers_the_domain() {
    let mut tree = Quadtree::from_iterator(Vec::new());
    assert!(tree.intersects(&Point::new(0x7fff, 0)));
    assert!(!tree.intersects(&Point::new(0x8000, 0)));
    assert_eq!(tree.insert(Point::new(0x7fff, 0x7fff), Value(1)), Ok(()));
}

#[test]
fn quadtree_delete_and_bounds() {
    let mut tree = Quadtree::new(Point::new(0, 0), Point::new(63, 63));
    assert_eq!(tree.bounds(), (Point::new(0, 0), Point::new(63, 63)));
    for i in 0..200u32 {
        tree.insert(Point::new(i % 64, (i * 5) % 64), Value(i)).unwrap();
    }
    tree.insert(Point::new(0, 0), Value(1000)).unwrap();
    assert_eq!(tree.delete(&Point::new(70, 0)), None);
    assert_eq!(tree.delete(&Point::new(1, 0)), None);
    let first = tree.delete(&Point::new(0, 0)).unwrap();
    assert!(first == Value(0) || first == Value(1000) || first.0 % 64 == 0);
    assert!(tree.contains_key(&Point::new(0, 0)));
    let mut left = 0;
    while tree.delete(&Point::new(0, 0)).is_some() {
        left += 1;
    }
    assert!(left >= 1);
    assert!(!tree.contains_key(&Point::new(0, 0)));
    assert_eq!(tree.get_by_id(&Point::new(3, 15)), Some(&Value(3)));
    let tree = Quadtree::from_iterator(vec![
        (Point::new(5, 9), Value(1)),
        (Point::new(2, 40), Value(2)),
        (Point::new(30, 12), Value(3)),
    ]);
    assert_eq!(tree.bounds(), (Point::new(2, 9), Point::new(30, 40)));
}
