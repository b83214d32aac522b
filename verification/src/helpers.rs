//! The geometric kernel: side of a line, segment containment, reflection,
//! distance, intersection, and the lower bound on the remaining distance.

use crate::numeric::{
    lemma_product_bound, lemma_round_div_bound, lemma_round_div_sign, lemma_square_bound,
    magnitude, round_div, rounded_quotient, rounded_sqrt, sqrt_round, times, COORD_MAX, REACH,
};
use vstd::prelude::*;

verus! {

/// A point of the plane in fixed-point coordinates.
#[derive(Clone, Copy, PartialEq, Eq, Structural, Debug)]
pub struct Point {
    pub x: i64,
    pub y: i64,
}

impl Point {
    /// Both coordinates are within [`COORD_MAX`]: the point may be a mesh
    /// vertex or a query point.
    pub open spec fn in_range(self) -> bool {
        &&& -COORD_MAX <= self.x <= COORD_MAX
        &&& -COORD_MAX <= self.y <= COORD_MAX
    }

    /// Both coordinates are within [`REACH`].
    pub open spec fn in_reach(self) -> bool {
        &&& -REACH <= self.x <= REACH
        &&& -REACH <= self.y <= REACH
    }

    pub fn new(x: i64, y: i64) -> (p: Point)
        ensures
            p.x == x,
            p.y == y,
    {
        Point { x, y }
    }

    /// Tells whether the point may be a mesh vertex or a query point.
    pub fn is_in_range(&self) -> (b: bool)
        ensures
            b == self.in_range(),
    {
        -COORD_MAX <= self.x && self.x <= COORD_MAX && -COORD_MAX <= self.y && self.y
            <= COORD_MAX
    }
}

/// Where a point lies relative to a directed line.
#[derive(Clone, Copy, PartialEq, Eq, Structural, Debug)]
pub enum EdgeSide {
    Left,
    Right,
    Edge,
}

/// A cross product below this magnitude counts as zero: a hundredth of a
/// squared world unit.
pub const EDGE_TOLERANCE: i128 = 10_000_000_000;

/// Cross product of `a -> b` with `a -> p`: positive when `p` is to the left.
pub open spec fn cross(p: Point, a: Point, b: Point) -> int {
    (p.y - a.y) * (b.x - a.x) - (p.x - a.x) * (b.y - a.y)
}

/// Side of the directed line `i[0] -> i[1]` on which `point` lies.
pub open spec fn side(point: Point, i: [Point; 2]) -> EdgeSide {
    let c = cross(point, i[0], i[1]);
    if -EDGE_TOLERANCE < c < EDGE_TOLERANCE {
        EdgeSide::Edge
    } else if c < 0 {
        EdgeSide::Right
    } else {
        EdgeSide::Left
    }
}

/// `point` lies on the closed segment `i`, up to the tolerance of [`side`].
pub open spec fn within_segment(point: Point, i: [Point; 2]) -> bool {
    &&& i[0].x <= point.x <= i[1].x || i[1].x <= point.x <= i[0].x
    &&& i[0].y <= point.y <= i[1].y || i[1].y <= point.y <= i[0].y
    &&& side(point, i) == EdgeSide::Edge
}

/// Squared distance between two points.
pub open spec fn distance_squared(p: Point, q: Point) -> int {
    (q.x - p.x) * (q.x - p.x) + (q.y - p.y) * (q.y - p.y)
}

/// Euclidean distance between two points, rounded to the nearest step.
pub open spec fn distance(p: Point, q: Point) -> int {
    sqrt_round(distance_squared(p, q))
}

/// Mirror image of `p` across the line through `i[0]` and `i[1]`, each
/// coordinate rounded to the nearest step; none when the two points
/// coincide and define no line.
pub open spec fn mirror_image(p: Point, i: [Point; 2]) -> Option<Point> {
    let dx = i[1].x - i[0].x;
    let dy = i[1].y - i[0].y;
    let px = p.x - i[0].x;
    let py = p.y - i[0].y;
    let den = dx * dx + dy * dy;
    let ca = dx * dx - dy * dy;
    let cb = 2 * (dx * dy);
    if den == 0 {
        None
    } else {
        Some(
            Point {
                x: (i[0].x + round_div(ca * px + cb * py, den)) as i64,
                y: (i[0].y + round_div(cb * px - ca * py, den)) as i64,
            },
        )
    }
}

/// Numerator of the parameter at which `line` meets `segment`.
pub open spec fn meet_numerator(line: [Point; 2], segment: [Point; 2]) -> int {
    (line[0].x - segment[0].x) * (line[0].y - line[1].y) - (line[0].y - segment[0].y) * (line[0].x
        - line[1].x)
}

/// Denominator of the parameter at which `line` meets `segment`; zero when
/// the two are parallel.
pub open spec fn meet_denominator(line: [Point; 2], segment: [Point; 2]) -> int {
    (line[0].x - line[1].x) * (segment[0].y - segment[1].y) - (line[0].y - line[1].y) * (
    segment[0].x - segment[1].x)
}

/// The quotient `num / den` exists and lies in `[0, 1]`.
pub open spec fn unit_fraction(num: int, den: int) -> bool {
    (den > 0 && 0 <= num <= den) || (den < 0 && den <= num <= 0)
}

/// Point where the infinite line through `line[0]` and `line[1]` meets the
/// closed segment `segment`, if there is exactly such a point.
pub open spec fn meeting_point(line: [Point; 2], segment: [Point; 2]) -> Option<Point> {
    let num = meet_numerator(line, segment);
    let den = meet_denominator(line, segment);
    if unit_fraction(num, den) {
        Some(
            Point {
                x: (segment[0].x + round_div(num * (segment[1].x - segment[0].x), den)) as i64,
                y: (segment[0].y + round_div(num * (segment[1].y - segment[0].y), den)) as i64,
            },
        )
    } else {
        None
    }
}

/// The goal as the heuristic sees it: mirrored across the interval when it
/// lies on the same side as the root.  None when a mirror image is needed
/// and the interval defines no line.
pub open spec fn heuristic_target(r: Point, to: Point, i: [Point; 2]) -> Option<Point> {
    if side(r, i) == side(to, i) {
        mirror_image(to, i)
    } else {
        Some(to)
    }
}

/// The quotient `num / den` is negative; a zero denominator counts as
/// positive.
pub open spec fn falls_before(num: int, den: int) -> bool {
    (den >= 0 && num < 0) || (den < 0 && num > 0)
}

/// The quotient `num / den` exceeds one; a zero denominator counts as
/// positive.
pub open spec fn falls_beyond(num: int, den: int) -> bool {
    (den > 0 && num > den) || (den < 0 && num < den) || (den == 0 && num > 0)
}

/// Lower bound on the length of a path from the root `r` to the goal `to`
/// that crosses the interval `i`; none when the interval is degenerate and
/// the goal would have to be mirrored across it.
pub open spec fn heuristic_value(r: Point, to: Point, i: [Point; 2]) -> Option<int> {
    match heuristic_target(r, to, i) {
        None => None,
        Some(t) => {
            if r == i[0] || r == i[1] {
                Some(distance(r, t))
            } else {
                let num = (t.x - i[0].x) * (r.y - i[0].y) - (t.y - i[0].y) * (r.x - i[0].x);
                let den = (t.x - r.x) * (i[1].y - i[0].y) - (t.y - r.y) * (i[1].x - i[0].x);
                if falls_before(num, den) {
                    Some(distance(r, i[0]) + distance(i[0], to))
                } else if falls_beyond(num, den) {
                    Some(distance(r, i[1]) + distance(i[1], to))
                } else {
                    Some(distance(r, t))
                }
            }
        },
    }
}

/// Endpoint of the interval `i` around which the last leg from `r` to the
/// goal `to` has to turn, if any.  Across a degenerate interval the goal has
/// no mirror image, and the turn is the left endpoint.
pub open spec fn turning_point(r: Point, to: Point, i: [Point; 2]) -> Option<Point> {
    match heuristic_target(r, to, i) {
        None => Some(i[1]),
        Some(t) => {
            if side(t, [r, i[0]]) == EdgeSide::Right {
                Some(i[0])
            } else if side(t, [r, i[1]]) == EdgeSide::Left {
                Some(i[1])
            } else {
                None
            }
        },
    }
}

/// Difference of two coordinates.
fn diff(a: i64, b: i64) -> (d: i128)
    ensures
        d == a - b,
{
    a as i128 - b as i128
}

fn cross_product(p: Point, a: Point, b: Point) -> (c: i128)
    requires
        p.in_reach(),
        a.in_reach(),
        b.in_reach(),
    ensures
        c == cross(p, a, b),
{
    let left = times(
        diff(p.y, a.y),
        diff(b.x, a.x),
        Ghost(10_000_000_000_000),
        Ghost(10_000_000_000_000),
    );
    let right = times(
        diff(p.x, a.x),
        diff(b.y, a.y),
        Ghost(10_000_000_000_000),
        Ghost(10_000_000_000_000),
    );
    left - right
}

/// Side of the directed line `i[0] -> i[1]` on which `point` lies.
pub fn on_side(point: Point, i: [Point; 2]) -> (s: EdgeSide)
    requires
        point.in_reach(),
        i[0].in_reach(),
        i[1].in_reach(),
    ensures
        s == side(point, i),
{
    let c = cross_product(point, i[0], i[1]);
    if -EDGE_TOLERANCE < c && c < EDGE_TOLERANCE {
        EdgeSide::Edge
    } else if c < 0 {
        EdgeSide::Right
    } else {
        EdgeSide::Left
    }
}

/// Tells whether `point` lies on the segment `i`.
pub fn on_segment(point: Point, i: [Point; 2]) -> (b: bool)
    requires
        point.in_reach(),
        i[0].in_reach(),
        i[1].in_reach(),
    ensures
        b == within_segment(point, i),
{
    let a = i[0];
    let b = i[1];
    ((a.x <= point.x && point.x <= b.x) || (b.x <= point.x && point.x <= a.x)) && ((a.y
        <= point.y && point.y <= b.y) || (b.y <= point.y && point.y <= a.y)) && on_side(point, i)
        == EdgeSide::Edge
}

/// Euclidean distance between two points.
pub fn distance_between(from: Point, to: Point) -> (d: i64)
    requires
        from.in_reach(),
        to.in_reach(),
    ensures
        d == distance(from, to),
        0 <= d <= 4 * REACH,
{
    let dx = diff(to.x, from.x);
    let dy = diff(to.y, from.y);
    proof {
        lemma_square_bound(dx as int, 10_000_000_000_000);
        lemma_square_bound(dy as int, 10_000_000_000_000);
    }
    let xx = times(dx, dx, Ghost(10_000_000_000_000), Ghost(10_000_000_000_000));
    let yy = times(dy, dy, Ghost(10_000_000_000_000), Ghost(10_000_000_000_000));
    let d = rounded_sqrt((xx + yy) as u128);
    proof {
        lemma_distance_bound(from, to, 20_000_000_000_000);
    }
    d
}

/// A distance is not negative.
pub proof fn lemma_distance_nonnegative(p: Point, q: Point)
    ensures
        0 <= distance(p, q),
{
    let n = distance_squared(p, q);
    assert(0 <= n) by (nonlinear_arith)
        requires
            n == (q.x - p.x) * (q.x - p.x) + (q.y - p.y) * (q.y - p.y),
    ;
    crate::numeric::lemma_sqrt_floor_exists(n);
}

/// The heuristic is not negative.
pub proof fn lemma_heuristic_nonnegative(r: Point, to: Point, i: [Point; 2])
    ensures
        heuristic_value(r, to, i) matches Some(g) ==> 0 <= g,
{
    if let Some(t) = heuristic_target(r, to, i) {
        lemma_distance_nonnegative(r, t);
        lemma_distance_nonnegative(r, i[0]);
        lemma_distance_nonnegative(i[0], to);
        lemma_distance_nonnegative(r, i[1]);
        lemma_distance_nonnegative(i[1], to);
    }
}

/// The distance between two points is at most the sum of the bounds on
/// their coordinate differences.
pub proof fn lemma_distance_bound(p: Point, q: Point, m: int)
    requires
        magnitude(q.x - p.x) + magnitude(q.y - p.y) <= m,
    ensures
        0 <= distance(p, q) <= m,
{
    let n = distance_squared(p, q);
    let s = crate::numeric::sqrt_floor(n);
    let ax = magnitude(q.x - p.x);
    let ay = magnitude(q.y - p.y);
    assert(0 <= n <= m * m) by (nonlinear_arith)
        requires
            n == (q.x - p.x) * (q.x - p.x) + (q.y - p.y) * (q.y - p.y),
            ax == magnitude(q.x - p.x),
            ay == magnitude(q.y - p.y),
            ax + ay <= m,
    {
        assert((q.x - p.x) * (q.x - p.x) == ax * ax);
        assert((q.y - p.y) * (q.y - p.y) == ay * ay);
        assert(ax * ax + ay * ay <= (ax + ay) * (ax + ay));
        assert((ax + ay) * (ax + ay) <= m * m);
    }
    crate::numeric::lemma_sqrt_floor_exists(n);
    assert(crate::numeric::is_sqrt_floor(n, s));
    assert(s <= m && (n - s * s > s ==> s + 1 <= m)) by (nonlinear_arith)
        requires
            0 <= s,
            s * s <= n,
            n <= m * m,
            0 <= m,
    {
        if s > m {
            assert(s * s > m * m);
        }
        if s == m {
            assert(n - s * s <= 0);
        }
    }
}

/// The offset of a mirror image from the first point of the line is bounded
/// by the offset of the point itself.
proof fn lemma_mirror_offset(dx: int, dy: int, px: int, py: int, m: int)
    by (nonlinear_arith)
    requires
        magnitude(px) + magnitude(py) <= m,
    ensures
        magnitude((dx * dx - dy * dy) * px + (2 * (dx * dy)) * py) <= m * magnitude(
            dx * dx + dy * dy,
        ),
        magnitude((2 * (dx * dy)) * px - (dx * dx - dy * dy) * py) <= m * magnitude(
            dx * dx + dy * dy,
        ),
        dx * dx + dy * dy == 0 <==> dx == 0 && dy == 0,
{
    let den = dx * dx + dy * dy;
    let ca = dx * dx - dy * dy;
    let cb = 2 * (dx * dy);
    assert(dx * dx >= 0 && dy * dy >= 0);
    assert(-den <= ca <= den);
    assert(den - cb == (dx - dy) * (dx - dy));
    assert(den + cb == (dx + dy) * (dx + dy));
    assert((dx - dy) * (dx - dy) >= 0 && (dx + dy) * (dx + dy) >= 0);
    assert(-den <= cb <= den);
    assert(magnitude(ca * px) <= den * magnitude(px));
    assert(magnitude(cb * py) <= den * magnitude(py));
    assert(magnitude(cb * px) <= den * magnitude(px));
    assert(magnitude(ca * py) <= den * magnitude(py));
    assert(den * magnitude(px) + den * magnitude(py) <= m * den);
}

/// Mirror image of `p` across the line through `i[0]` and `i[1]`.
pub fn mirror(p: Point, i: [Point; 2]) -> (m: Option<Point>)
    requires
        p.in_range(),
        i[0].in_range(),
        i[1].in_range(),
    ensures
        m == mirror_image(p, i),
        m is None <==> i[0] == i[1],
        m matches Some(q) ==> q.in_reach(),
{
    let dx = diff(i[1].x, i[0].x);
    let dy = diff(i[1].y, i[0].y);
    let px = diff(p.x, i[0].x);
    let py = diff(p.y, i[0].y);
    proof {
        lemma_square_bound(dx as int, 2_000_000_000_000);
        lemma_square_bound(dy as int, 2_000_000_000_000);
        lemma_mirror_offset(dx as int, dy as int, px as int, py as int, 4_000_000_000_000);
    }
    let dxx = times(dx, dx, Ghost(2_000_000_000_000), Ghost(2_000_000_000_000));
    let dyy = times(dy, dy, Ghost(2_000_000_000_000), Ghost(2_000_000_000_000));
    let dxy = times(dx, dy, Ghost(2_000_000_000_000), Ghost(2_000_000_000_000));
    let den = dxx + dyy;
    if den == 0 {
        return None;
    }
    let ca = dxx - dyy;
    let cb = 2 * dxy;
    let nx = times(ca, px, Ghost(4_000_000_000_000_000_000_000_000), Ghost(2_000_000_000_000))
        + times(cb, py, Ghost(8_000_000_000_000_000_000_000_000), Ghost(2_000_000_000_000));
    let ny = times(cb, px, Ghost(8_000_000_000_000_000_000_000_000), Ghost(2_000_000_000_000))
        - times(ca, py, Ghost(4_000_000_000_000_000_000_000_000), Ghost(2_000_000_000_000));
    let qx = rounded_quotient(nx, den);
    let qy = rounded_quotient(ny, den);
    proof {
        lemma_round_div_bound(nx as int, den as int, 4_000_000_000_000);
        lemma_round_div_bound(ny as int, den as int, 4_000_000_000_000);
    }
    Some(Point { x: (i[0].x as i128 + qx) as i64, y: (i[0].y as i128 + qy) as i64 })
}

/// A point of a segment that divides it in a ratio between zero and one
/// lies between the endpoints, coordinate by coordinate.
proof fn lemma_fraction_between(num: int, den: int, delta: int)
    requires
        unit_fraction(num, den),
    ensures
        delta >= 0 ==> 0 <= round_div(num * delta, den) <= delta,
        delta <= 0 ==> delta <= round_div(num * delta, den) <= 0,
{
    let t = num * delta;
    assert(magnitude(t) <= magnitude(delta) * magnitude(den) && (delta >= 0 ==> (t == 0 || (t < 0)
        == (den < 0))) && (delta <= 0 ==> (t == 0 || (t < 0) != (den < 0)))) by (nonlinear_arith)
        requires
            unit_fraction(num, den),
            t == num * delta,
    {
        assert(magnitude(t) == magnitude(num) * magnitude(delta));
        assert(magnitude(num) <= magnitude(den));
    }
    lemma_round_div_bound(t, den, magnitude(delta));
    lemma_round_div_sign(t, den);
}

/// Point where the line through `line[0]` and `line[1]` meets the segment
/// `segment`.
pub fn line_intersect_segment(line: [Point; 2], segment: [Point; 2]) -> (m: Option<Point>)
    requires
        line[0].in_range(),
        line[1].in_range(),
        segment[0].in_range(),
        segment[1].in_range(),
    ensures
        m == meeting_point(line, segment),
        m matches Some(q) ==> q.in_range(),
{
    let num = times(
        diff(line[0].x, segment[0].x),
        diff(line[0].y, line[1].y),
        Ghost(2_000_000_000_000),
        Ghost(2_000_000_000_000),
    ) - times(
        diff(line[0].y, segment[0].y),
        diff(line[0].x, line[1].x),
        Ghost(2_000_000_000_000),
        Ghost(2_000_000_000_000),
    );
    let den = times(
        diff(line[0].x, line[1].x),
        diff(segment[0].y, segment[1].y),
        Ghost(2_000_000_000_000),
        Ghost(2_000_000_000_000),
    ) - times(
        diff(line[0].y, line[1].y),
        diff(segment[0].x, segment[1].x),
        Ghost(2_000_000_000_000),
        Ghost(2_000_000_000_000),
    );
    if (den > 0 && 0 <= num && num <= den) || (den < 0 && den <= num && num <= 0) {
        let sx = diff(segment[1].x, segment[0].x);
        let sy = diff(segment[1].y, segment[0].y);
        let tx = times(num, sx, Ghost(8_000_000_000_000_000_000_000_000), Ghost(2_000_000_000_000));
        let ty = times(num, sy, Ghost(8_000_000_000_000_000_000_000_000), Ghost(2_000_000_000_000));
        let qx = rounded_quotient(tx, den);
        let qy = rounded_quotient(ty, den);
        proof {
            lemma_fraction_between(num as int, den as int, sx as int);
            lemma_fraction_between(num as int, den as int, sy as int);
        }
        Some(Point { x: (segment[0].x as i128 + qx) as i64, y: (segment[0].y as i128 + qy) as i64 })
    } else {
        None
    }
}

/// The goal as the heuristic sees it.
fn target(r: Point, to: Point, i: [Point; 2]) -> (t: Option<Point>)
    requires
        r.in_range(),
        to.in_range(),
        i[0].in_range(),
        i[1].in_range(),
    ensures
        t == heuristic_target(r, to, i),
        t matches Some(q) ==> q.in_reach(),
{
    if on_side(r, i) == on_side(to, i) {
        mirror(to, i)
    } else {
        Some(to)
    }
}

/// Lower bound on the length of a path from the root `r` to the goal `to`
/// across the interval `i`.
pub fn heuristic(r: Point, to: Point, i: [Point; 2]) -> (h: Option<i64>)
    requires
        r.in_range(),
        to.in_range(),
        i[0].in_range(),
        i[1].in_range(),
    ensures
        match h {
            Some(v) => heuristic_value(r, to, i) == Some(v as int),
            None => heuristic_value(r, to, i) is None,
        },
        h matches Some(v) ==> 0 <= v <= 8 * REACH,
{
    match target(r, to, i) {
        None => None,
        Some(t) => {
            if r == i[0] || r == i[1] {
                Some(distance_between(r, t))
            } else {
                let num = times(
                    diff(t.x, i[0].x),
                    diff(r.y, i[0].y),
                    Ghost(10_000_000_000_000),
                    Ghost(10_000_000_000_000),
                ) - times(
                    diff(t.y, i[0].y),
                    diff(r.x, i[0].x),
                    Ghost(10_000_000_000_000),
                    Ghost(10_000_000_000_000),
                );
                let den = times(
                    diff(t.x, r.x),
                    diff(i[1].y, i[0].y),
                    Ghost(10_000_000_000_000),
                    Ghost(10_000_000_000_000),
                ) - times(
                    diff(t.y, r.y),
                    diff(i[1].x, i[0].x),
                    Ghost(10_000_000_000_000),
                    Ghost(10_000_000_000_000),
                );
                if (den >= 0 && num < 0) || (den < 0 && num > 0) {
                    Some(distance_between(r, i[0]) + distance_between(i[0], to))
                } else if (den > 0 && num > den) || (den < 0 && num < den) || (den == 0 && num
                    > 0) {
                    Some(distance_between(r, i[1]) + distance_between(i[1], to))
                } else {
                    Some(distance_between(r, t))
                }
            }
        },
    }
}

/// Endpoint of the interval `i` around which the last leg from `r` to the
/// goal `to` has to turn, if any.
pub fn turning_on(r: Point, to: Point, i: [Point; 2]) -> (t: Option<Point>)
    requires
        r.in_range(),
        to.in_range(),
        i[0].in_range(),
        i[1].in_range(),
    ensures
        t == turning_point(r, to, i),
{
    match target(r, to, i) {
        None => Some(i[1]),
        Some(t) => {
            if on_side(t, [r, i[0]]) == EdgeSide::Right {
                Some(i[0])
            } else if on_side(t, [r, i[1]]) == EdgeSide::Left {
                Some(i[1])
            } else {
                None
            }
        },
    }
}

} // verus!
