//! Points in the plane, their bounding boxes and the distance between them.
use crate::math::{isqrt, lemma_sqrt_floor_unique, sqrt_floor};
use vstd::prelude::*;

verus! {

/// A position in the plane.
#[derive(Clone, Copy, Debug, PartialEq, Eq, Structural)]
pub struct Point {
    pub x: i32,
    pub y: i32,
}

/// An axis-aligned box. The box of no points at all has each minimum above its
/// maximum and encloses nothing.
#[derive(Debug, PartialEq, Eq, Structural)]
pub struct Bounds {
    pub min_x: i32,
    pub max_x: i32,
    pub min_y: i32,
    pub max_y: i32,
}

/// The square of the Euclidean distance between `a` and `b`.
pub open spec fn squared_distance(a: Point, b: Point) -> int {
    (a.x - b.x) * (a.x - b.x) + (a.y - b.y) * (a.y - b.y)
}

/// The Euclidean distance between `a` and `b`, rounded down.
pub open spec fn rounded_distance(a: Point, b: Point) -> int {
    sqrt_floor(squared_distance(a, b))
}

/// The smallest box that encloses every point of `points`.
pub open spec fn bounds_of(points: Seq<Point>) -> Bounds
    decreases points.len(),
{
    if points.len() == 0 {
        Bounds { min_x: i32::MAX, max_x: i32::MIN, min_y: i32::MAX, max_y: i32::MIN }
    } else {
        let b = bounds_of(points.drop_last());
        let p = points.last();
        Bounds {
            min_x: if p.x < b.min_x { p.x } else { b.min_x },
            max_x: if b.max_x < p.x { p.x } else { b.max_x },
            min_y: if p.y < b.min_y { p.y } else { b.min_y },
            max_y: if b.max_y < p.y { p.y } else { b.max_y },
        }
    }
}

/// No squared distance between two points exceeds twice the square of the
/// width of the coordinate range.
pub proof fn lemma_squared_distance_bounds(a: Point, b: Point)
    ensures
        0 <= squared_distance(a, b) <= 0x1_FFFF_FFFC_0000_0002,
{
    let dx: int = a.x - b.x;
    let dy: int = a.y - b.y;
    assert(0 <= dx * dx <= 0xFFFF_FFFE_0000_0001) by (nonlinear_arith)
        requires
            -0xFFFF_FFFF <= dx <= 0xFFFF_FFFF,
    ;
    assert(0 <= dy * dy <= 0xFFFF_FFFE_0000_0001) by (nonlinear_arith)
        requires
            -0xFFFF_FFFF <= dy <= 0xFFFF_FFFF,
    ;
}

/// Distance does not depend on the order of its arguments, and a point is at
/// distance zero from itself.
pub proof fn lemma_distance_symmetric(a: Point, b: Point)
    ensures
        squared_distance(a, b) == squared_distance(b, a),
        rounded_distance(a, b) == rounded_distance(b, a),
        squared_distance(a, a) == 0,
        rounded_distance(a, a) == 0,
{
    let dx: int = a.x - b.x;
    let dy: int = a.y - b.y;
    assert(dx * dx == (-dx) * (-dx)) by (nonlinear_arith);
    assert(dy * dy == (-dy) * (-dy)) by (nonlinear_arith);
    lemma_sqrt_floor_unique(0, 0);
}

/// Some point of `points` has the x-coordinate `x`.
pub open spec fn has_x(points: Seq<Point>, x: i32) -> bool {
    exists|i: int| 0 <= i < points.len() && (#[trigger] points[i]).x == x
}

/// Some point of `points` has the y-coordinate `y`.
pub open spec fn has_y(points: Seq<Point>, y: i32) -> bool {
    exists|i: int| 0 <= i < points.len() && (#[trigger] points[i]).y == y
}

/// The bounding box encloses every point, each of its sides passes through
/// one of them, and it is not inverted unless there is no point at all.
pub proof fn lemma_bounds_enclose(points: Seq<Point>)
    ensures
        forall|i: int|
            0 <= i < points.len() ==> {
                &&& bounds_of(points).min_x <= (#[trigger] points[i]).x <= bounds_of(points).max_x
                &&& bounds_of(points).min_y <= points[i].y <= bounds_of(points).max_y
            },
        points.len() > 0 ==> {
            &&& has_x(points, bounds_of(points).min_x)
            &&& has_x(points, bounds_of(points).max_x)
            &&& has_y(points, bounds_of(points).min_y)
            &&& has_y(points, bounds_of(points).max_y)
            &&& bounds_of(points).min_x <= bounds_of(points).max_x
            &&& bounds_of(points).min_y <= bounds_of(points).max_y
        },
    decreases points.len(),
{
    if points.len() > 0 {
        let rest = points.drop_last();
        let last: int = points.len() - 1;
        let b = bounds_of(points);
        let p = points[last];
        lemma_bounds_enclose(rest);
        assert forall|i: int| 0 <= i < points.len() implies {
            &&& b.min_x <= (#[trigger] points[i]).x <= b.max_x
            &&& b.min_y <= points[i].y <= b.max_y
        } by {
            if i < last {
                assert(rest[i] == points[i]);
            }
        }
        if rest.len() == 0 {
            assert(bounds_of(rest).min_x == i32::MAX && bounds_of(rest).max_x == i32::MIN);
            assert(bounds_of(rest).min_y == i32::MAX && bounds_of(rest).max_y == i32::MIN);
            assert(p.x == b.min_x && p.x == b.max_x && p.y == b.min_y && p.y == b.max_y);
        } else {
            lemma_has_extends(rest, p);
        }
        assert(has_x(points, p.x) && has_y(points, p.y));
    }
}

/// A coordinate found among some points is found among them and one more.
proof fn lemma_has_extends(rest: Seq<Point>, p: Point)
    ensures
        forall|x: i32| has_x(rest, x) ==> #[trigger] has_x(rest.push(p), x),
        forall|y: i32| has_y(rest, y) ==> #[trigger] has_y(rest.push(p), y),
{
    let longer = rest.push(p);
    assert forall|x: i32| has_x(rest, x) implies #[trigger] has_x(longer, x) by {
        let i: int = choose|i: int| 0 <= i < rest.len() && (#[trigger] rest[i]).x == x;
        assert(longer[i].x == x);
    }
    assert forall|y: i32| has_y(rest, y) implies #[trigger] has_y(longer, y) by {
        let i: int = choose|i: int| 0 <= i < rest.len() && (#[trigger] rest[i]).y == y;
        assert(longer[i].y == y);
    }
}

/// The smallest box that encloses every point of `points`.
pub fn bounds(points: &[Point]) -> (b: Bounds)
    ensures
        b == bounds_of(points@),
{
    let mut b: Bounds = Bounds {
        min_x: i32::MAX,
        max_x: i32::MIN,
        min_y: i32::MAX,
        max_y: i32::MIN,
    };
    let n: usize = points.len();
    let mut i: usize = 0;
    while i < n
        invariant
            i <= n,
            n == points@.len(),
            b == bounds_of(points@.take(i as int)),
        decreases n - i,
    {
        proof {
            assert(points@.take(i + 1).drop_last() =~= points@.take(i as int));
        }
        let p: Point = points[i];
        if p.x < b.min_x {
            b.min_x = p.x;
        }
        if b.max_x < p.x {
            b.max_x = p.x;
        }
        if p.y < b.min_y {
            b.min_y = p.y;
        }
        if b.max_y < p.y {
            b.max_y = p.y;
        }
        i = i + 1;
    }
    proof {
        assert(points@.take(n as int) =~= points@);
    }
    b
}

/// The square of the Euclidean distance between `a` and `b`.
pub fn distance_squared(a: Point, b: Point) -> (d: u128)
    ensures
        d == squared_distance(a, b),
{
    let dx: i64 = a.x as i64 - b.x as i64;
    let dy: i64 = a.y as i64 - b.y as i64;
    proof {
        lemma_squared_distance_bounds(a, b);
    }
    assert(0 <= dx * dx <= 0xFFFF_FFFE_0000_0001) by (nonlinear_arith)
        requires
            -0xFFFF_FFFF <= dx <= 0xFFFF_FFFF,
    ;
    assert(0 <= dy * dy <= 0xFFFF_FFFE_0000_0001) by (nonlinear_arith)
        requires
            -0xFFFF_FFFF <= dy <= 0xFFFF_FFFF,
    ;
    let sx: u128 = (dx as i128 * dx as i128) as u128;
    let sy: u128 = (dy as i128 * dy as i128) as u128;
    sx + sy
}

/// The Euclidean distance between `a` and `b`, rounded down.
pub fn distance(a: Point, b: Point) -> (d: u64)
    ensures
        d == rounded_distance(a, b),
        d <= 0x1_6A09_E667,
{
    let r: u64 = isqrt(distance_squared(a, b));
    proof {
        lemma_squared_distance_bounds(a, b);
        if r > 0x1_6A09_E667 {
            assert(r * r > 0x1_FFFF_FFFC_0000_0002) by (nonlinear_arith)
                requires
                    r >= 0x1_6A09_E668,
            ;
        }
    }
    r
}

/// Whether `v` is in the range of a coordinate.
pub open spec fn is_coordinate(v: int) -> bool {
    i32::MIN <= v <= i32::MAX
}

/// The values as coordinates, where each of them is in the range of one.
pub fn coordinates(values: &[i64]) -> (res: Option<Vec<i32>>)
    ensures
        res is Some <==> (forall|i: int|
            0 <= i < values@.len() ==> is_coordinate(#[trigger] values@[i] as int)),
        res matches Some(v) ==> v@.len() == values@.len() && forall|i: int|
            0 <= i < values@.len() ==> #[trigger] v@[i] == values@[i],
{
    let n: usize = values.len();
    let mut out: Vec<i32> = Vec::new();
    let mut i: usize = 0;
    while i < n
        invariant
            i <= n,
            n == values@.len(),
            out@.len() == i,
            forall|j: int|
                0 <= j < i ==> is_coordinate(#[trigger] values@[j] as int) && out@[j]
                    == values@[j],
        decreases n - i,
    {
        let v: i64 = values[i];
        if v < i32::MIN as i64 || v > i32::MAX as i64 {
            return None;
        }
        out.push(v as i32);
        i = i + 1;
    }
    Some(out)
}

} // verus!
