use vstd::prelude::*;
use crate::types::Axis;

verus! {

/// A place on the plane. Coordinates are whole numbers of a fixed unit (a
/// ten-millionth of a degree, say), so that every comparison and every
/// square of a distance is exact.
#[derive(Copy, Clone, Debug, PartialEq, Eq, Structural)]
pub struct Point {
    pub latitude: i32,
    pub longitude: i32,
}

/// `x` times `x`.
pub open spec fn spec_square(x: int) -> int {
    x * x
}

/// A square grows with the magnitude of what is squared.
pub proof fn lemma_square_monotonic(a: int, b: int)
    requires
        0 <= a <= b || b <= a <= 0,
    ensures
        spec_square(a) <= spec_square(b),
{
    assert(a * a <= b * b) by (nonlinear_arith)
        requires
            0 <= a <= b || b <= a <= 0,
    ;
}

/// Two points are at distance zero exactly when they are the same point.
pub proof fn lemma_zero_distance(a: Point, b: Point)
    ensures
        a.spec_square_distance(b) >= 0,
        a.spec_square_distance(b) == 0 <==> a == b,
{
    let x = a.latitude - b.latitude;
    let y = a.longitude - b.longitude;
    assert(x * x >= 0 && y * y >= 0 && (x * x == 0 <==> x == 0) && (y * y == 0 <==> y == 0))
        by (nonlinear_arith);
}

/// Whole roots stand in the order of what they are the roots of: the closer
/// of two places by the square of the distance is no farther by the distance
/// rounded down, and a number has one whole root only.
pub proof fn lemma_root_order(low_root: int, low: int, high_root: int, high: int)
    requires
        0 <= low_root,
        0 <= high_root,
        spec_square(low_root) <= low,
        low <= high,
        high < spec_square(high_root + 1),
    ensures
        low_root <= high_root,
{
    if low_root > high_root {
        lemma_square_monotonic(high_root + 1, low_root);
    }
}

/// The whole part of the square root of `n`: the largest number whose square
/// does not exceed `n`.
pub fn floor_sqrt(n: u128) -> (r: u64)
    ensures
        spec_square(r as int) <= n < spec_square(r + 1),
{
    let mut low: u128 = 0;
    let mut high: u128 = 0x1_0000_0000_0000_0000;
    assert(high * high > n) by (nonlinear_arith)
        requires
            high == 0x1_0000_0000_0000_0000,
            n <= u128::MAX,
    ;
    while high - low > 1
        invariant
            low < high <= 0x1_0000_0000_0000_0000,
            low * low <= n < high * high,
        decreases high - low,
    {
        let middle: u128 = low + (high - low) / 2;
        assert(middle * middle <= 0xffff_ffff_ffff_ffff * 0xffff_ffff_ffff_ffff)
            by (nonlinear_arith)
            requires
                0 <= middle <= 0xffff_ffff_ffff_ffff,
        ;
        if middle * middle <= n {
            low = middle;
        } else {
            high = middle;
        }
    }
    low as u64
}

/// The square of a difference of two `i32` stays below 2^64.
proof fn lemma_square_bound(d: int)
    requires
        -0xffff_ffff <= d <= 0xffff_ffff,
    ensures
        0 <= spec_square(d) <= 0xffff_fffe_0000_0001,
{
    assert(0 <= d * d <= 0xffff_fffe_0000_0001) by (nonlinear_arith)
        requires
            -0xffff_ffff <= d <= 0xffff_ffff,
    ;
}

/// Squares a number. The square of any `i64` fits in a `u128`.
pub fn square(x: i64) -> (r: u128)
    ensures
        r == spec_square(x as int),
{
    let wide: i128 = x as i128;
    let magnitude: u128 = if wide >= 0 {
        wide as u128
    } else {
        (-wide) as u128
    };
    assert(magnitude * magnitude == x * x && magnitude * magnitude
        <= 0x4000_0000_0000_0000_0000_0000_0000_0000) by (nonlinear_arith)
        requires
            magnitude == x || magnitude == -x,
            magnitude <= 0x8000_0000_0000_0000,
    ;
    magnitude * magnitude
}

impl Point {
    /// The coordinate of the point along `axis`.
    pub open spec fn coord(self, axis: Axis) -> int {
        match axis {
            Axis::Latitude => self.latitude as int,
            Axis::Longitude => self.longitude as int,
        }
    }

    /// The square of the Euclidean distance between two points.
    pub open spec fn spec_square_distance(self, other: Point) -> int {
        spec_square(self.latitude - other.latitude) + spec_square(
            self.longitude - other.longitude,
        )
    }

    /// The square of the Euclidean distance to `other`: an exact stand-in
    /// for the distance wherever only the order of distances matters.
    pub fn square_distance(&self, other: Point) -> (r: u128)
        ensures
            r == self.spec_square_distance(other),
    {
        let latitudes: i64 = self.latitude as i64 - other.latitude as i64;
        let longitudes: i64 = self.longitude as i64 - other.longitude as i64;
        proof {
            lemma_square_bound(latitudes as int);
            lemma_square_bound(longitudes as int);
        }
        square(latitudes) + square(longitudes)
    }

    /// The Euclidean distance to `other`, rounded down to whole units.
    pub fn distance(&self, other: Point) -> (r: u64)
        ensures
            spec_square(r as int) <= self.spec_square_distance(other) < spec_square(r + 1),
    {
        floor_sqrt(self.square_distance(other))
    }

    pub fn new(latitude: i32, longitude: i32) -> (p: Point)
        ensures
            p.latitude == latitude,
            p.longitude == longitude,
    {
        Point { latitude, longitude }
    }
}

impl core::ops::Index<Axis> for Point {
    type Output = i32;

    fn index(&self, axis: Axis) -> (r: &i32)
        ensures
            *r == self.coord(axis),
    {
        match axis {
            Axis::Latitude => &self.latitude,
            Axis::Longitude => &self.longitude,
        }
    }
}

impl vstd::std_specs::core::IndexSpecImpl<Axis> for Point {
    open spec fn index_req(&self, index: &Axis) -> bool {
        true
    }
}

} // verus!
