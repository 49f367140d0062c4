use geo_kdtree::kd_tree::{KdTree, KdTreeError};
use geo_kdtree::types::{Location, Point};

fn corners() -> Vec<Point> {
    vec![
        Point::new(0, 0),
        Point::new(0, 10),
        Point::new(10, 0),
        Point::new(10, 10),
        Point::new(5, 5),
    ]
}

fn sorted_tree(points: &[Point]) -> KdTree<'_, Point> {
    let mut kd = KdTree::new(points);
    kd.sort(0, points.len(), 0);
    kd
}

#[test]
fn test5() {
    let locactions = vec![
        Location::new(0, "a".to_string(), 100, 100, 100_000_000, 100_000_000),
        Location::new(1, "b".to_string(), 1, 1, 1_000_000, 1_000_000),
        Location::new(2, "c".to_string(), 50, 50, 50_000_000, 40_000_000),
        Location::new(3, "c".to_string(), 51, 41, 51_000_000, 41_000_000),
        Location::new(4, "c".to_string(), 52, 43, 52_000_000, 43_000_000),
        Location::new(5, "d".to_string(), 60, 70, 60_000_000, 70_000_000),
        Location::new(100, "target".to_string(), 53, 44, 53_000_000, 44_000_000),
    ];

    let target = Location::new(4, "c".to_string(), 52, 42, 52_000_000, 42_500_000);
    let mut kd = KdTree::new(&locactions);
    kd.sort(0, locactions.len(), 0);
    let (index, dist) = kd.search_nn(&target).unwrap();
    assert_eq!(index, 4);
    assert_eq!(dist, 250_000_000_000);
    assert_eq!(kd.get_location(index).id, 4);

    let v = kd.search_top_nn(&target, 2).unwrap();
    assert_eq!(v.len(), 2);
    assert_eq!(v[0], (4, 250_000_000_000));
    // records 3 and 6 are equally far from the target
    assert_eq!(v[1].1, 3_250_000_000_000);
    assert!(v[1].0 == 3 || v[1].0 == 6);
}

#[test]
fn nearest_of_five_points() {
    let points = corners();
    let kd = sorted_tree(&points);
    assert_eq!(kd.search_nn(&Point::new(4, 4)), Ok((4, 2)));
}

#[test]
fn two_nearest_of_five_points() {
    let points = corners();
    let kd = sorted_tree(&points);
    assert_eq!(kd.search_top_nn(&Point::new(4, 4), 2), Ok(vec![(4, 2), (0, 32)]));
}

#[test]
fn five_nearest_of_five_points() {
    let points = corners();
    let kd = sorted_tree(&points);
    let v = kd.search_top_nn(&Point::new(4, 4), 5).unwrap();
    assert_eq!(v.len(), 5);
    assert_eq!(v[0], (4, 2));
    assert_eq!(v[1], (0, 32));
    assert_eq!(v[2].1, 52);
    assert_eq!(v[3].1, 52);
    assert!((v[2].0 == 1 && v[3].0 == 2) || (v[2].0 == 2 && v[3].0 == 1));
    assert_eq!(v[4], (3, 72));
}

#[test]
fn more_than_all_returns_every_record() {
    let points = corners();
    let kd = sorted_tree(&points);
    let v = kd.search_top_nn(&Point::new(4, 4), 100).unwrap();
    assert_eq!(v.len(), 5);
    let mut seen: Vec<usize> = v.iter().map(|p| p.0).collect();
    seen.sort();
    assert_eq!(seen, vec![0, 1, 2, 3, 4]);
    for w in v.windows(2) {
        assert!(w[0].1 <= w[1].1);
    }
}

#[test]
fn zero_nearest_is_empty() {
    let points = corners();
    let kd = sorted_tree(&points);
    assert_eq!(kd.search_top_nn(&Point::new(4, 4), 0), Ok(vec![]));
}

#[test]
fn empty_index_fails() {
    let points: Vec<Point> = vec![];
    let kd = sorted_tree(&points);
    assert_eq!(kd.search_nn(&Point::new(1, 2)), Err(KdTreeError::EmptyIndex));
    assert_eq!(kd.search_top_nn(&Point::new(1, 2), 3), Err(KdTreeError::EmptyIndex));
    assert_eq!(kd.search_top_nn(&Point::new(1, 2), 0), Err(KdTreeError::EmptyIndex));
}

#[test]
fn single_record() {
    let points = vec![Point::new(-7, 3)];
    let kd = sorted_tree(&points);
    assert_eq!(kd.search_nn(&Point::new(-4, -1)), Ok((0, 25)));
    assert_eq!(kd.search_top_nn(&Point::new(-4, -1), 3), Ok(vec![(0, 25)]));
}

#[test]
fn equal_coordinates() {
    let points = vec![Point::new(2, 2), Point::new(2, 2), Point::new(2, 2), Point::new(9, 9)];
    let kd = sorted_tree(&points);
    let v = kd.search_top_nn(&Point::new(2, 2), 3).unwrap();
    let mut idx: Vec<usize> = v.iter().map(|p| p.0).collect();
    idx.sort();
    assert_eq!(idx, vec![0, 1, 2]);
    assert!(v.iter().all(|p| p.1 == 0));
}

#[test]
fn extreme_coordinates() {
    let points = vec![Point::new(i32::MIN, i32::MIN), Point::new(i32::MAX, i32::MAX)];
    let kd = sorted_tree(&points);
    let far: u128 = 2 * (u32::MAX as u128) * (u32::MAX as u128);
    assert_eq!(kd.search_top_nn(&Point::new(i32::MIN, i32::MIN), 2), Ok(vec![(0, 0), (1, far)]));
}

#[test]
fn nearest_is_first_of_one() {
    let points = corners();
    let kd = sorted_tree(&points);
    for q in [Point::new(4, 4), Point::new(9, 1), Point::new(-3, 12)] {
        let one = kd.search_nn(&q).unwrap();
        let v = kd.search_top_nn(&q, 1).unwrap();
        assert_eq!(one, v[0]);
    }
}

#[test]
fn sorting_twice_gives_same_answers() {
    let points = random_points(200, 11);
    let mut once = KdTree::new(&points);
    once.sort(0, points.len(), 0);
    let mut twice = KdTree::new(&points);
    twice.sort(0, points.len(), 0);
    twice.sort(0, points.len(), 0);
    for q in random_points(20, 99).iter() {
        assert_eq!(once.search_top_nn(q, 7), twice.search_top_nn(q, 7));
    }
}

fn random_points(n: usize, seed: u64) -> Vec<Point> {
    let mut state = seed;
    let mut next = move || {
        state = state.wrapping_mul(6364136223846793005).wrapping_add(1442695040888963407);
        ((state >> 33) % 2001) as i32 - 1000
    };
    (0..n).map(|_| Point::new(next(), next())).collect()
}

fn brute_force(points: &[Point], q: &Point) -> Vec<u128> {
    let mut d: Vec<u128> = points.iter().map(|p| q.distance_to(p)).collect();
    d.sort();
    d
}

#[test]
fn matches_brute_force() {
    let points = random_points(300, 7);
    let kd = sorted_tree(&points);
    for (t, q) in random_points(40, 3).iter().enumerate() {
        let k = 1 + t % 12;
        let v = kd.search_top_nn(q, k).unwrap();
        let all = brute_force(&points, q);
        let got: Vec<u128> = v.iter().map(|p| p.1).collect();
        assert_eq!(got, all[..k].to_vec());
        for (i, d) in v.iter() {
            assert_eq!(*d, q.distance_to(&points[*i]));
        }
        let (i, d) = kd.search_nn(q).unwrap();
        assert_eq!(d, all[0]);
        assert_eq!(d, q.distance_to(&points[i]));
    }
}

#[test]
fn sort_on_a_subrange() {
    let points = corners();
    let mut kd = KdTree::new(&points);
    kd.sort(1, 3, 1);
    kd.sort(0, points.len(), 2);
    assert_eq!(kd.search_nn(&Point::new(9, 9)), Ok((3, 2)));
}
