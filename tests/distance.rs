use geo_kdtree::types::{distance_to, LngLat, Location, Point};

#[test]
fn test2() {
    let test = Location::new(1, "a".to_string(), 141021795, 38732815, 130_000_000, 0);
    let test2 = Location::new(1, "a".to_string(), 141021795, 38732815, 130_000_000, 100_000);
    assert_eq!(test.distance_to(&test2), 10_000_000_000);
}

#[test]
fn planar_squared_distance() {
    assert_eq!(distance_to(&Point::new(4, 4), &Point::new(0, 10)), 52);
    assert_eq!(Point::new(-3, 0).distance_to(&Point::new(0, 4)), 25);
}

#[test]
fn symmetric_and_zero() {
    let a = Point::new(17, -5);
    let b = Location::new(0, "b".to_string(), 0, 0, -2, 9);
    assert_eq!(a.distance_to(&b), b.distance_to(&a));
    assert_eq!(a.distance_to(&a), 0);
    assert_eq!(b.distance_to(&b), 0);
}

#[test]
fn accessors() {
    let l = Location::new(3, "x".to_string(), 5, 6, 7, 8);
    assert_eq!((l.get_lng(), l.get_lat()), (7, 8));
    let p = Point::new(-1, 2);
    assert_eq!((p.get_lng(), p.get_lat()), (-1, 2));
}
