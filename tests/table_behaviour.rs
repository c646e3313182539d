use morton_table::litmax_bigmin::litmax_bigmin;
use morton_table::morton_key::MortonKey;
use morton_table::morton_table::MortonTable;
use morton_table::{Point, Value};
use rand::rngs::StdRng;
use rand::{Rng, RngCore, SeedableRng};
use std::collections::HashSet;

fn brute_force(rows: &[(Point, Value)], center: Point, radius: u32) -> Vec<(Point, Value)> {
    let r2 = (radius as i64) * (radius as i64);
    let mut res = rows
        .iter()
        .filter(|(p, _)| {
            let dx = p.0[0] as i64 - center.0[0] as i64;
            let dy = p.0[1] as i64 - center.0[1] as i64;
            dx * dx + dy * dy < r2
        })
        .copied()
        .collect::<Vec<_>>();
    res.sort_by_key(|(p, v)| (p.0, v.0));
    res
}

fn query(table: &MortonTable, center: Point, radius: u32) -> Vec<(Point, Value)> {
    let mut out = Vec::new();
    table.find_in_range(&center, radius, &mut out);
    let mut res = out.iter().map(|(p, v)| (*p, **v)).collect::<Vec<_>>();
    res.sort_by_key(|(p, v)| (p.0, v.0));
    res
}

#[test]
fn single_insert_is_found() {
    let mut table = MortonTable::new();
    assert_eq!(table.insert(Point::new(16, 32), Value(123)), Ok(()));
    assert_eq!(table.get_by_id(&Point::new(16, 32)), Some(&Value(123)));
    assert!(table.contains_key(&Point::new(16, 32)));
    assert!(!table.contains_key(&Point::new(16, 31)));
    assert_eq!(table.get_by_id(&Point::new(16, 31)), None);
}

#[test]
fn out_of_range_insert_is_refused() {
    let mut table = MortonTable::new();
    let p = Point::new(0x8000, 3);
    assert_eq!(table.insert(p, Value(1)), Err(p));
    let q = Point::new(3, 0x8000);
    assert_eq!(table.insert(q, Value(1)), Err(q));
    assert!(!table.contains_key(&p));
    assert_eq!(table.get_by_id(&q), None);
    assert_eq!(table.insert(Point::new(0x7fff, 0x7fff), Value(2)), Ok(()));
    assert_eq!(table.get_by_id(&Point::new(0x7fff, 0x7fff)), Some(&Value(2)));
}

#[test]
fn partial_query_returns_exact_points() {
    let pts = [
        (8, 6),
        (9, 10),
        (11, 8),
        (6, 8),
        (16, 8),
        (12, 11),
        (0, 0),
        (15, 20),
    ];
    let mut table = MortonTable::new();
    for (i, (x, y)) in pts.iter().enumerate() {
        table.insert(Point::new(*x, *y), Value(i as u32)).unwrap();
    }
    let res = query(&table, Point::new(8, 8), 4);
    let got = res.iter().map(|(p, _)| (p.0[0], p.0[1])).collect::<HashSet<_>>();
    let want = [(8, 6), (9, 10), (11, 8), (6, 8)].iter().copied().collect::<HashSet<_>>();
    assert_eq!(got, want);
    assert_eq!(res.len(), 4);
}

#[test]
fn query_matches_brute_force_on_large_tables() {
    let mut rng = StdRng::seed_from_u64(7);
    let mut rows = Vec::new();
    for i in 0..3000u32 {
        rows.push((Point::new(rng.gen_range(0, 512), rng.gen_range(0, 512)), Value(i)));
    }
    let table = MortonTable::from_iterator(rows.clone());
    for _ in 0..50 {
        let c = Point::new(rng.gen_range(0, 600), rng.gen_range(0, 600));
        let r = rng.gen_range(0, 200);
        assert_eq!(query(&table, c, r), brute_force(&rows, c, r));
    }
}

#[test]
fn query_keeps_duplicated_points() {
    let mut table = MortonTable::new();
    for i in 0..40 {
        table.insert(Point::new(5, 5), Value(i)).unwrap();
    }
    table.insert(Point::new(100, 100), Value(99)).unwrap();
    let res = query(&table, Point::new(5, 5), 1);
    assert_eq!(res.len(), 40);
    let res = query(&table, Point::new(5, 5), 0);
    assert!(res.is_empty());
}

#[test]
fn insert_and_extend_agree() {
    let mut rng = StdRng::seed_from_u64(42);
    let mut rows = Vec::new();
    for i in 0..500u32 {
        rows.push((Point::new(rng.gen_range(0, 1000), rng.gen_range(0, 1000)), Value(i)));
    }
    let bulk = MortonTable::from_iterator(rows.clone());
    let mut one_by_one = MortonTable::new();
    for (p, v) in rows.iter() {
        one_by_one.insert(*p, *v).unwrap();
    }
    for (p, _) in rows.iter() {
        let a = *bulk.get_by_id(p).unwrap();
        let b = *one_by_one.get_by_id(p).unwrap();
        assert!(rows.contains(&(*p, a)));
        assert!(rows.contains(&(*p, b)));
        assert!(bulk.contains_key(p));
        assert!(one_by_one.contains_key(p));
    }
}

#[test]
fn contains_key_agrees_with_get_by_id() {
    let mut rng = StdRng::seed_from_u64(3);
    let mut table = MortonTable::new();
    for i in 0..200u32 {
        table.insert(Point::new(rng.gen_range(0, 64), rng.gen_range(0, 64)), Value(i)).unwrap();
    }
    for x in 0..70 {
        for y in 0..70 {
            let p = Point::new(x, y);
            assert_eq!(table.contains_key(&p), table.get_by_id(&p).is_some());
        }
    }
}

#[test]
fn delete_removes_one_row() {
    let mut table = MortonTable::new();
    table.insert(Point::new(3, 4), Value(1)).unwrap();
    table.insert(Point::new(3, 4), Value(2)).unwrap();
    table.insert(Point::new(9, 9), Value(3)).unwrap();
    assert_eq!(table.delete(&Point::new(1, 1)), None);
    let first = table.delete(&Point::new(3, 4)).unwrap();
    assert!(first == Value(1) || first == Value(2));
    assert!(table.contains_key(&Point::new(3, 4)));
    let second = table.delete(&Point::new(3, 4)).unwrap();
    assert_ne!(first, second);
    assert!(!table.contains_key(&Point::new(3, 4)));
    assert_eq!(table.delete(&Point::new(3, 4)), None);
    assert_eq!(table.get_by_id(&Point::new(9, 9)), Some(&Value(3)));
}

#[test]
fn clear_empties_the_table() {
    let mut table = MortonTable::new();
    for i in 0..100 {
        table.insert(Point::new(i, i), Value(i)).unwrap();
    }
    table.clear();
    assert!(!table.contains_key(&Point::new(5, 5)));
    let mut out = Vec::new();
    table.find_in_range(&Point::new(50, 50), 100, &mut out);
    assert!(out.is_empty());
    table.insert(Point::new(5, 5), Value(7)).unwrap();
    assert_eq!(table.get_by_id(&Point::new(5, 5)), Some(&Value(7)));
}

#[test]
fn lookups_through_the_skip_index() {
    for n in [1u32, 7, 8, 9, 15, 16, 17, 63, 64, 65, 100, 257] {
        let mut table = MortonTable::new();
        for i in 0..n {
            table.insert(Point::new(i * 3 % 101, i * 7 % 103), Value(i)).unwrap();
        }
        for i in 0..n {
            let p = Point::new(i * 3 % 101, i * 7 % 103);
            assert_eq!(table.get_by_id(&p), Some(&Value(i)), "n = {} i = {}", n, i);
        }
        assert!(!table.contains_key(&Point::new(200, 200)));
        assert!(!table.contains_key(&Point::new(0, 1)));
    }
}

#[test]
fn bounds_are_the_domain() {
    let table = MortonTable::new();
    assert_eq!(table.bounds(), (Point::new(0, 0), Point::new(0x8000, 0x8000)));
    assert!(table.intersects(&Point::new(0x7fff, 0)));
    assert!(!table.intersects(&Point::new(0x8000, 0)));
}

#[test]
fn distance_is_rounded_down() {
    assert_eq!(Point::new(0, 0).dist(&Point::new(3, 4)), 5);
    assert_eq!(Point::new(3, 4).dist(&Point::new(0, 0)), 5);
    assert_eq!(Point::new(0, 0).dist(&Point::new(1, 1)), 1);
    assert_eq!(Point::new(10, 10).dist(&Point::new(10, 10)), 0);
    assert_eq!(Point::new(0, 0).dist(&Point::new(0x7fff, 0x7fff)), 46339);
}

#[test]
fn morton_key_interleaves_bits() {
    assert_eq!(MortonKey::new(1, 0), MortonKey(1));
    assert_eq!(MortonKey::new(0, 1), MortonKey(2));
    assert_eq!(MortonKey::new(3, 0), MortonKey(5));
    assert_eq!(MortonKey::new(0xffff, 0xffff), MortonKey(0xffff_ffff));
    assert_eq!(MortonKey::new(0xffff, 0), MortonKey(0x5555_5555));
    assert_eq!(MortonKey(0xaaaa_aaaa).as_point(), [0, 0xffff]);
}

#[test]
fn morton_round_trip_on_the_domain_edges() {
    for x in (0..0x8000u32).step_by(127).chain([0x7fff]) {
        for y in (0..0x8000u32).step_by(131).chain([0x7fff]) {
            assert_eq!(MortonKey::new_u32(x, y).as_point(), [x, y]);
        }
    }
}

#[test]
fn litmax_bigmin_examples() {
    let a = MortonKey::new(5, 5);
    let b = MortonKey::new(9, 8);
    let [litmax, bigmin] = litmax_bigmin(a.0, a.as_point(), b.0, b.as_point());
    assert_eq!(litmax, MortonKey::new(9, 7));
    assert_eq!(bigmin, MortonKey::new(5, 8));
    let b = MortonKey::new(9, 7);
    let [litmax, bigmin] = litmax_bigmin(a.0, a.as_point(), b.0, b.as_point());
    assert_eq!((litmax.0, bigmin.0), (63, 98));
}

#[test]
fn litmax_bigmin_skips_only_points_outside_the_box() {
    let mut rng = StdRng::seed_from_u64(11);
    for _ in 0..300 {
        let (x1, x2) = {
            let a = rng.gen_range(0, 64);
            let b = rng.gen_range(0, 64);
            (a.min(b), a.max(b))
        };
        let (y1, y2) = {
            let a = rng.gen_range(0, 64);
            let b = rng.gen_range(0, 64);
            (a.min(b), a.max(b))
        };
        let a = MortonKey::new_u32(x1, y1);
        let b = MortonKey::new_u32(x2, y2);
        if a.0 >= b.0 {
            continue;
        }
        let [litmax, bigmin] = litmax_bigmin(a.0, a.as_point(), b.0, b.as_point());
        assert!(a.0 <= litmax.0 && litmax.0 < bigmin.0 && bigmin.0 <= b.0);
        for k in a.0..=b.0 {
            let [x, y] = MortonKey(k).as_point();
            if x1 <= x && x <= x2 && y1 <= y && y <= y2 {
                assert!(k <= litmax.0 || k >= bigmin.0);
            }
        }
    }
}

#[test]
fn columns_stay_sorted_and_aligned() {
    let mut rng = StdRng::seed_from_u64(9);
    let mut table = MortonTable::new();
    let check = |t: &MortonTable| {
        assert_eq!(t.keys.len(), t.positions.len());
        assert_eq!(t.keys.len(), t.values.len());
        assert!(t.keys.windows(2).all(|w| w[0] <= w[1]));
        let n = t.keys.len();
        let step = n / 8;
        assert_eq!(t.skipstep, step);
        if step > 0 {
            for i in 0..7 {
                assert_eq!(t.skiplist[i], t.keys[(i + 1) * step].0);
            }
        } else {
            assert_eq!(t.skiplist[0], t.keys.last().map_or(0, |k| k.0));
            assert!(t.skiplist[1..].iter().all(|s| *s == 0));
        }
    };
    for i in 0..300u32 {
        table.insert(Point::new(rng.gen_range(0, 50), rng.gen_range(0, 50)), Value(i)).unwrap();
        check(&table);
    }
    let more = (0..200u32)
        .map(|i| (Point::new(rng.gen_range(0, 50), rng.gen_range(0, 50)), Value(i)))
        .collect::<Vec<_>>();
    table.extend(more);
    check(&table);
    for x in 0..50 {
        table.delete(&Point::new(x, x));
        check(&table);
    }
    table.clear();
    check(&table);
}

#[test]
fn insert_keeps_the_order_of_equal_rows() {
    let mut table = MortonTable::new();
    for i in 0..5 {
        table.insert(Point::new(3, 3), Value(i)).unwrap();
    }
    assert_eq!(table.get_by_id(&Point::new(3, 3)), Some(&Value(4)));
    assert_eq!(table.delete(&Point::new(3, 3)), Some(Value(4)));
    assert_eq!(table.get_by_id(&Point::new(3, 3)), Some(&Value(3)));
}
