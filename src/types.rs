//! Records that carry a coordinate, and the distance between them.
use vstd::prelude::*;

verus! {

/// The squared planar distance between two coordinate pairs `(lng, lat)`.
pub open spec fn sq_dist(a: (int, int), b: (int, int)) -> int {
    (a.0 - b.0) * (a.0 - b.0) + (a.1 - b.1) * (a.1 - b.1)
}

/// Distance is symmetric, zero from a coordinate to itself, and never
/// negative.
pub proof fn lemma_distance_properties(a: (int, int), b: (int, int))
    ensures
        sq_dist(a, b) == sq_dist(b, a),
        sq_dist(a, a) == 0,
        sq_dist(a, b) >= 0,
{
    assert(sq_dist(a, b) == sq_dist(b, a)) by (nonlinear_arith);
    assert(sq_dist(a, a) == 0) by (nonlinear_arith);
    assert(sq_dist(a, b) >= 0) by (nonlinear_arith);
}

/// The coordinate of `c` on `axis`: longitude for axis 0, latitude otherwise.
pub open spec fn axis_coord(c: (int, int), axis: int) -> int {
    if axis == 0 {
        c.0
    } else {
        c.1
    }
}

/// A record that carries a longitude and a latitude.
pub trait LngLat {
    /// The record's `(lng, lat)` pair.
    spec fn coord(&self) -> (int, int);

    fn get_lng(&self) -> (r: i32)
        ensures
            r as int == self.coord().0,
    ;

    fn get_lat(&self) -> (r: i32)
        ensures
            r as int == self.coord().1,
    ;
}

/// A bare coordinate.
#[derive(Debug, Clone, PartialEq, Eq)]
pub struct Point {
    pub lng: i32,
    pub lat: i32,
}

impl Point {
    pub fn new(lng: i32, lat: i32) -> (r: Self)
        ensures
            r.lng == lng,
            r.lat == lat,
    {
        Point { lng, lat }
    }

    pub fn distance_to<U: LngLat>(&self, other: &U) -> (r: u128)
        ensures
            r as int == sq_dist(self.coord(), other.coord()),
    {
        distance_to(self, other)
    }
}

impl LngLat for Point {
    open spec fn coord(&self) -> (int, int) {
        (self.lng as int, self.lat as int)
    }

    fn get_lng(&self) -> (r: i32) {
        self.lng
    }

    fn get_lat(&self) -> (r: i32) {
        self.lat
    }
}

/// A labelled place. `x` and `y` are projected coordinates carried along for
/// reporting; the geometry reads only `lng` and `lat`.
#[derive(Debug, Clone, PartialEq, Eq)]
pub struct Location {
    pub id: u32,
    pub name: String,
    pub x: i32,
    pub y: i32,
    pub lng: i32,
    pub lat: i32,
}

impl Location {
    pub fn new(id: u32, name: String, x: i32, y: i32, lng: i32, lat: i32) -> (r: Self)
        ensures
            r.id == id,
            r.name == name,
            r.x == x,
            r.y == y,
            r.lng == lng,
            r.lat == lat,
    {
        Location { id, name, x, y, lng, lat }
    }

    pub fn distance_to<U: LngLat>(&self, other: &U) -> (r: u128)
        ensures
            r as int == sq_dist(self.coord(), other.coord()),
    {
        distance_to(self, other)
    }
}

impl LngLat for Location {
    open spec fn coord(&self) -> (int, int) {
        (self.lng as int, self.lat as int)
    }

    fn get_lng(&self) -> (r: i32) {
        self.lng
    }

    fn get_lat(&self) -> (r: i32) {
        self.lat
    }
}

proof fn lemma_square_bound(d: int)
    requires
        -0x1_0000_0000 < d < 0x1_0000_0000,
    ensures
        0 <= d * d < 0x1_0000_0000_0000_0000,
{
    assert(0 <= d * d < 0x1_0000_0000_0000_0000) by (nonlinear_arith)
        requires
            -0x1_0000_0000 < d < 0x1_0000_0000,
    ;
}

/// The squared planar distance between two records. It is symmetric and zero
/// between equal coordinates.
pub fn distance_to<A: LngLat, B: LngLat>(point1: &A, point2: &B) -> (r: u128)
    ensures
        r as int == sq_dist(point1.coord(), point2.coord()),
{
    let dx: i64 = point1.get_lng() as i64 - point2.get_lng() as i64;
    let dy: i64 = point1.get_lat() as i64 - point2.get_lat() as i64;
    proof {
        lemma_square_bound(dx as int);
        lemma_square_bound(dy as int);
    }
    let sx: u128 = (dx as i128 * dx as i128) as u128;
    let sy: u128 = (dy as i128 * dy as i128) as u128;
    sx + sy
}

} // verus!
