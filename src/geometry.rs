//! Points, lines and segments on the grid, and the scaled distance.
use vstd::prelude::*;
use vstd::arithmetic::div_mod::lemma_fundamental_div_mod_converse;

verus! {

/// A grid position: (column, row).
pub type Coord = (u16, u16);

/// The line of all points (x, y) with `run * y == rise * x + intercept`.
#[derive(Clone, Copy, Debug, PartialEq, Eq)]
pub struct Line {
    pub rise: i64,
    pub run: i64,
    pub intercept: i64,
}

/// The point (x / den, y / den), with `den` positive.
#[derive(Clone, Copy, Debug, PartialEq, Eq)]
pub struct RatPoint {
    pub x: i64,
    pub y: i64,
    pub den: i64,
}

/// `l` is the line through `p1` and `p2`, with slope `rise / run`.
pub open spec fn is_line_through(l: Line, p1: Coord, p2: Coord) -> bool {
    &&& l.rise == p1.1 - p2.1
    &&& l.run == p1.0 - p2.0
    &&& l.intercept == p1.1 * (p1.0 - p2.0) - p1.0 * (p1.1 - p2.1)
}

/// The point (x / den, y / den) lies on `l`.
pub open spec fn on_line(l: Line, x: int, y: int, den: int) -> bool {
    l.run * y == l.rise * x + l.intercept * den
}

/// The grid position `p` as a rational point.
pub open spec fn corner(p: Coord) -> RatPoint {
    RatPoint { x: p.0 as i64, y: p.1 as i64, den: 1 }
}

/// The foot of the perpendicular from `q` to the line through `p1` and `p2`.
/// A vertical line (equal columns, which covers equal endpoints) and a
/// horizontal one are taken directly.
pub open spec fn line_projection(p1: Coord, p2: Coord, q: Coord) -> RatPoint {
    if p1.0 == p2.0 {
        RatPoint { x: p1.0 as i64, y: q.1 as i64, den: 1 }
    } else if p1.1 == p2.1 {
        RatPoint { x: q.0 as i64, y: p1.1 as i64, den: 1 }
    } else {
        let run = p1.0 - p2.0;
        let rise = p1.1 - p2.1;
        let c = p1.1 * run - p1.0 * rise;
        RatPoint {
            x: (run * run * q.0 + rise * run * q.1 - rise * c) as i64,
            y: (rise * rise * q.1 + rise * run * q.0 + run * c) as i64,
            den: (run * run + rise * rise) as i64,
        }
    }
}

/// The projection of `q`, clamped to the segment from `p1` to `p2`: by rows
/// for a vertical segment, by columns for any other.
pub open spec fn segment_point(p1: Coord, p2: Coord, q: Coord) -> RatPoint {
    let ip = line_projection(p1, p2, q);
    if p1.0 == p2.0 {
        let upper = if p1.1 > p2.1 { p1 } else { p2 };
        let lower = if p1.1 > p2.1 { p2 } else { p1 };
        if ip.y > upper.1 * ip.den {
            corner(upper)
        } else if ip.y < lower.1 * ip.den {
            corner(lower)
        } else {
            ip
        }
    } else {
        let right = if p1.0 > p2.0 { p1 } else { p2 };
        let left = if p1.0 > p2.0 { p2 } else { p1 };
        if ip.x < left.0 * ip.den {
            corner(left)
        } else if ip.x > right.0 * ip.den {
            corner(right)
        } else {
            ip
        }
    }
}

/// A rational point with numerators and denominator small enough for the
/// distance computation.
pub open spec fn bounded(p: RatPoint) -> bool {
    &&& 0 < p.den < 0x4_0000_0000
    &&& -0x4_0000_0000_0000 < p.x < 0x4_0000_0000_0000
    &&& -0x4_0000_0000_0000 < p.y < 0x4_0000_0000_0000
}

/// The square of the distance from `p` to `q`, with columns scaled by 5/8
/// and rows by 8/5, in millionths of a square cell, rounded down.
pub open spec fn scaled_square(p: RatPoint, q: Coord) -> int {
    let ex = p.x - q.0 * p.den;
    let ey = p.y - q.1 * p.den;
    625 * (625 * (ex * ex) + 4096 * (ey * ey)) / (p.den * p.den)
}

/// `r` is the square root of `n`, rounded down.
pub open spec fn is_floor_sqrt(r: int, n: int) -> bool {
    0 <= r && r * r <= n < (r + 1) * (r + 1)
}

/// The square root of a non-negative `n`, rounded down.
pub open spec fn floor_sqrt(n: int) -> int {
    choose|r: int| is_floor_sqrt(r, n)
}

/// The scaled distance from `p` to `q` in thousandths of a cell, rounded down.
pub open spec fn distance(p: RatPoint, q: Coord) -> int {
    floor_sqrt(scaled_square(p, q))
}

/// The scaled distance from `q` to the segment from `p1` to `p2`.
pub open spec fn segment_distance(p1: Coord, p2: Coord, q: Coord) -> int {
    distance(segment_point(p1, p2, q), q)
}

proof fn lemma_floor_sqrt_unique(r: int, s: int, n: int)
    requires
        is_floor_sqrt(r, n),
        is_floor_sqrt(s, n),
    ensures
        r == s,
{
    if r < s {
        assert((r + 1) * (r + 1) <= s * s) by (nonlinear_arith)
            requires
                0 <= r,
                r + 1 <= s,
        ;
    } else if s < r {
        assert((s + 1) * (s + 1) <= r * r) by (nonlinear_arith)
            requires
                0 <= s,
                s + 1 <= r,
        ;
    }
}

/// Any square root rounded down is the one that `floor_sqrt` names.
pub proof fn lemma_floor_sqrt(r: int, n: int)
    requires
        is_floor_sqrt(r, n),
    ensures
        floor_sqrt(n) == r,
{
    lemma_floor_sqrt_unique(floor_sqrt(n), r, n);
}

pub(crate) proof fn lemma_abs_mul_lt(a: int, b: int, x: int, y: int)
    requires
        -x < a < x,
        -y < b < y,
    ensures
        -(x * y) < a * b < x * y,
{
    assert(-(x * y) < a * b < x * y) by (nonlinear_arith)
        requires
            -x < a < x,
            -y < b < y,
    ;
}

pub(crate) proof fn lemma_abs_mul_le(a: int, b: int, x: int, y: int)
    requires
        -x <= a <= x,
        -y <= b <= y,
    ensures
        -(x * y) <= a * b <= x * y,
{
    assert(-(x * y) <= a * b <= x * y) by (nonlinear_arith)
        requires
            -x <= a <= x,
            -y <= b <= y,
    ;
}

/// The line through `p1` and `p2`, with `rise == p1.1 - p2.1` and
/// `run == p1.0 - p2.0`. For a vertical pair `run` is zero and the line is
/// the column of `p1`.
pub fn find_line_equation(p1: Coord, p2: Coord) -> (r: Line)
    ensures
        is_line_through(r, p1, p2),
        on_line(r, p1.0 as int, p1.1 as int, 1),
        on_line(r, p2.0 as int, p2.1 as int, 1),
{
    let rise = p1.1 as i64 - p2.1 as i64;
    let run = p1.0 as i64 - p2.0 as i64;
    proof {
        lemma_abs_mul_lt(p1.1 as int, run as int, 0x1_0000, 0x1_0000);
        lemma_abs_mul_lt(p1.0 as int, rise as int, 0x1_0000, 0x1_0000);
    }
    let r = Line { rise, run, intercept: p1.1 as i64 * run - p1.0 as i64 * rise };
    proof {
        assert(on_line(r, p2.0 as int, p2.1 as int, 1)) by (nonlinear_arith)
            requires
                r.rise == p1.1 - p2.1,
                r.run == p1.0 - p2.0,
                r.intercept == p1.1 * (p1.0 - p2.0) - p1.0 * (p1.1 - p2.1),
        ;
    }
    r
}

proof fn lemma_projection_bounded(p1: Coord, p2: Coord, q: Coord)
    ensures
        bounded(line_projection(p1, p2, q)),
{
    if p1.0 != p2.0 && p1.1 != p2.1 {
        let run = p1.0 - p2.0;
        let rise = p1.1 - p2.1;
        let c = p1.1 * run - p1.0 * rise;
        let qx = q.0 as int;
        let qy = q.1 as int;
        lemma_abs_mul_lt(run, run, 0x1_0000, 0x1_0000);
        lemma_abs_mul_lt(rise, rise, 0x1_0000, 0x1_0000);
        lemma_abs_mul_lt(rise, run, 0x1_0000, 0x1_0000);
        lemma_abs_mul_lt(p1.1 as int, run, 0x1_0000, 0x1_0000);
        lemma_abs_mul_lt(p1.0 as int, rise, 0x1_0000, 0x1_0000);
        lemma_abs_mul_lt(run * run, qx, 0x1_0000_0000, 0x1_0000);
        lemma_abs_mul_lt(rise * rise, qy, 0x1_0000_0000, 0x1_0000);
        lemma_abs_mul_lt(rise * run, qy, 0x1_0000_0000, 0x1_0000);
        lemma_abs_mul_lt(rise * run, qx, 0x1_0000_0000, 0x1_0000);
        lemma_abs_mul_lt(rise, c, 0x1_0000, 0x2_0000_0000);
        lemma_abs_mul_lt(run, c, 0x1_0000, 0x2_0000_0000);
        assert(run * run > 0) by (nonlinear_arith)
            requires
                run != 0,
        ;
        assert(rise * rise >= 0) by (nonlinear_arith);
    }
}

/// The foot of the perpendicular from `point` to `line`, the line through
/// `p1` and `p2`.
pub fn find_closest_point_to_line(p1: Coord, p2: Coord, line: Line, point: Coord) -> (r: RatPoint)
    requires
        is_line_through(line, p1, p2),
    ensures
        r == line_projection(p1, p2, point),
        bounded(r),
        on_line(line, r.x as int, r.y as int, r.den as int),
        perpendicular_from(line, r, point),
{
    proof {
        lemma_projection_bounded(p1, p2, point);
        lemma_projection_is_perpendicular_foot(p1, p2, point, line);
    }
    if p1.0 == p2.0 {
        return RatPoint { x: p1.0 as i64, y: point.1 as i64, den: 1 };
    }
    if p1.1 == p2.1 {
        return RatPoint { x: point.0 as i64, y: p1.1 as i64, den: 1 };
    }
    let run = line.run as i128;
    let rise = line.rise as i128;
    let c = line.intercept as i128;
    let qx = point.0 as i128;
    let qy = point.1 as i128;
    proof {
        lemma_abs_mul_lt(run as int, run as int, 0x1_0000, 0x1_0000);
        lemma_abs_mul_lt(rise as int, rise as int, 0x1_0000, 0x1_0000);
        lemma_abs_mul_lt(rise as int, run as int, 0x1_0000, 0x1_0000);
        lemma_abs_mul_lt(p1.1 as int, run as int, 0x1_0000, 0x1_0000);
        lemma_abs_mul_lt(p1.0 as int, rise as int, 0x1_0000, 0x1_0000);
        lemma_abs_mul_lt(run * run, qx as int, 0x1_0000_0000, 0x1_0000);
        lemma_abs_mul_lt(rise * rise, qy as int, 0x1_0000_0000, 0x1_0000);
        lemma_abs_mul_lt(rise * run, qy as int, 0x1_0000_0000, 0x1_0000);
        lemma_abs_mul_lt(rise * run, qx as int, 0x1_0000_0000, 0x1_0000);
        lemma_abs_mul_lt(rise as int, c as int, 0x1_0000, 0x2_0000_0000);
        lemma_abs_mul_lt(run as int, c as int, 0x1_0000, 0x2_0000_0000);
    }
    let den = run * run + rise * rise;
    let x = run * run * qx + rise * run * qy - rise * c;
    let y = rise * rise * qy + rise * run * qx + run * c;
    RatPoint { x: x as i64, y: y as i64, den: den as i64 }
}

/// The point of the segment from `p1` to `p2` that `point` projects onto,
/// clamped to the segment's ends; `line` is the line through `p1` and `p2`.
pub fn find_closest_point_on_line_segment(p1: Coord, p2: Coord, line: Line, point: Coord) -> (r: RatPoint)
    requires
        is_line_through(line, p1, p2),
    ensures
        r == segment_point(p1, p2, point),
        bounded(r),
{
    let ip = find_closest_point_to_line(p1, p2, line, point);
    if p1.0 == p2.0 {
        let (upper, lower) = if p1.1 > p2.1 { (p1, p2) } else { (p2, p1) };
        proof {
            lemma_abs_mul_lt(upper.1 as int, ip.den as int, 0x1_0000, 0x4_0000_0000);
            lemma_abs_mul_lt(lower.1 as int, ip.den as int, 0x1_0000, 0x4_0000_0000);
        }
        return if ip.y > upper.1 as i64 * ip.den {
            RatPoint { x: upper.0 as i64, y: upper.1 as i64, den: 1 }
        } else if ip.y < lower.1 as i64 * ip.den {
            RatPoint { x: lower.0 as i64, y: lower.1 as i64, den: 1 }
        } else {
            ip
        };
    }
    let (right, left) = if p1.0 > p2.0 { (p1, p2) } else { (p2, p1) };
    proof {
        lemma_abs_mul_lt(right.0 as int, ip.den as int, 0x1_0000, 0x4_0000_0000);
        lemma_abs_mul_lt(left.0 as int, ip.den as int, 0x1_0000, 0x4_0000_0000);
    }
    if ip.x < left.0 as i64 * ip.den {
        RatPoint { x: left.0 as i64, y: left.1 as i64, den: 1 }
    } else if ip.x > right.0 as i64 * ip.den {
        RatPoint { x: right.0 as i64, y: right.1 as i64, den: 1 }
    } else {
        ip
    }
}

/// The square root of `n`, rounded down.
pub fn floor_sqrt_u128(n: u128) -> (r: u64)
    requires
        n < 0x4000_0000_0000_0000_0000_0000_0000_0000,
    ensures
        is_floor_sqrt(r as int, n as int),
        r < 0x8000_0000_0000_0000,
{
    let mut lo: u128 = 0;
    let mut hi: u128 = 0x8000_0000_0000_0000;
    assert(hi * hi == 0x4000_0000_0000_0000_0000_0000_0000_0000) by (nonlinear_arith)
        requires
            hi == 0x8000_0000_0000_0000u128,
    ;
    while hi - lo > 1
        invariant
            lo < hi <= 0x8000_0000_0000_0000,
            lo * lo <= n,
            n < hi * hi,
        decreases hi - lo,
    {
        let mid = lo + (hi - lo) / 2;
        assert(mid * mid <= 0x4000_0000_0000_0000_0000_0000_0000_0000) by (nonlinear_arith)
            requires
                mid <= 0x8000_0000_0000_0000,
        ;
        if mid * mid <= n {
            lo = mid;
        } else {
            hi = mid;
        }
    }
    assert(hi == lo + 1);
    lo as u64
}

proof fn lemma_square_bounds(ex: int, ey: int)
    requires
        -0x8_0000_0000_0000 < ex < 0x8_0000_0000_0000,
        -0x8_0000_0000_0000 < ey < 0x8_0000_0000_0000,
    ensures
        0 <= 625 * (625 * (ex * ex) + 4096 * (ey * ey)) < 0x2000_0000_0000_0000_0000_0000_0000_0000,
{
    lemma_abs_mul_lt(ex, ex, 0x8_0000_0000_0000, 0x8_0000_0000_0000);
    lemma_abs_mul_lt(ey, ey, 0x8_0000_0000_0000, 0x8_0000_0000_0000);
    assert(ex * ex >= 0 && ey * ey >= 0) by (nonlinear_arith);
}

/// The distance from `p` to the cell `q`, columns scaled by 5/8 and rows by
/// 8/5, in thousandths of a cell, rounded down.
pub fn dist(p: RatPoint, q: Coord) -> (r: i64)
    requires
        bounded(p),
    ensures
        r == distance(p, q),
        0 <= r,
{
    proof {
        lemma_abs_mul_lt(q.0 as int, p.den as int, 0x1_0000, 0x4_0000_0000);
        lemma_abs_mul_lt(q.1 as int, p.den as int, 0x1_0000, 0x4_0000_0000);
    }
    let ex = p.x as i128 - q.0 as i128 * p.den as i128;
    let ey = p.y as i128 - q.1 as i128 * p.den as i128;
    proof {
        lemma_square_bounds(ex as int, ey as int);
        lemma_abs_mul_lt(ex as int, ex as int, 0x8_0000_0000_0000, 0x8_0000_0000_0000);
        lemma_abs_mul_lt(ey as int, ey as int, 0x8_0000_0000_0000, 0x8_0000_0000_0000);
        lemma_abs_mul_lt(p.den as int, p.den as int, 0x4_0000_0000, 0x4_0000_0000);
        assert(p.den * p.den > 0) by (nonlinear_arith)
            requires
                p.den > 0,
        ;
    }
    let m = (625 * (625 * (ex * ex) + 4096 * (ey * ey))) as u128;
    let d2 = (p.den as i128 * p.den as i128) as u128;
    let n = m / d2;
    proof {
        assert(n <= m) by (nonlinear_arith)
            requires
                d2 >= 1,
                n == m / d2,
        ;
    }
    let r = floor_sqrt_u128(n);
    proof {
        lemma_floor_sqrt(r as int, n as int);
    }
    r as i64
}

/// `v` moved into the range from `lo` to `hi`.
pub open spec fn clamp(v: int, lo: int, hi: int) -> int {
    if v < lo {
        lo
    } else if v > hi {
        hi
    } else {
        v
    }
}

/// The smaller of `a` and `b`.
pub open spec fn min_of(a: int, b: int) -> int {
    if a <= b { a } else { b }
}

/// The larger of `a` and `b`.
pub open spec fn max_of(a: int, b: int) -> int {
    if a >= b { a } else { b }
}

/// On a vertical segment the closest point keeps the segment's column, and
/// its row is the row of `q` clamped to the segment's rows.
pub proof fn lemma_vertical_segment_clamps(p1: Coord, p2: Coord, q: Coord)
    requires
        p1.0 == p2.0,
    ensures
        segment_point(p1, p2, q).den == 1,
        segment_point(p1, p2, q).x == p1.0,
        segment_point(p1, p2, q).y == clamp(q.1 as int, min_of(p1.1 as int, p2.1 as int), max_of(p1.1 as int, p2.1 as int)),
        min_of(p1.1 as int, p2.1 as int) <= segment_point(p1, p2, q).y <= max_of(p1.1 as int, p2.1 as int),
{
}

/// On a horizontal segment the closest point keeps the segment's row, and
/// its column is the column of `q` clamped to the segment's columns.
pub proof fn lemma_horizontal_segment_clamps(p1: Coord, p2: Coord, q: Coord)
    requires
        p1.1 == p2.1,
        p1.0 != p2.0,
    ensures
        segment_point(p1, p2, q).den == 1,
        segment_point(p1, p2, q).y == p1.1,
        segment_point(p1, p2, q).x == clamp(q.0 as int, min_of(p1.0 as int, p2.0 as int), max_of(p1.0 as int, p2.0 as int)),
        min_of(p1.0 as int, p2.0 as int) <= segment_point(p1, p2, q).x <= max_of(p1.0 as int, p2.0 as int),
{
}

/// `p` lies on the perpendicular to `l` through `q`.
pub open spec fn perpendicular_from(l: Line, p: RatPoint, q: Coord) -> bool {
    (p.x - q.0 * p.den) * l.run + (p.y - q.1 * p.den) * l.rise == 0
}

/// The projection lies on the line through `p1` and `p2`, and on the
/// perpendicular to it through `q`.
pub proof fn lemma_projection_is_perpendicular_foot(p1: Coord, p2: Coord, q: Coord, l: Line)
    requires
        is_line_through(l, p1, p2),
    ensures
        on_line(l, line_projection(p1, p2, q).x as int, line_projection(p1, p2, q).y as int, line_projection(p1, p2, q).den as int),
        perpendicular_from(l, line_projection(p1, p2, q), q),
{
    lemma_projection_bounded(p1, p2, q);
    let run = l.run as int;
    let rise = l.rise as int;
    let c = l.intercept as int;
    let qx = q.0 as int;
    let qy = q.1 as int;
    if p1.0 == p2.0 {
        let x = p1.0 as int;
        assert(run == 0);
        assert(c == -(x * rise)) by (nonlinear_arith)
            requires
                c == p1.1 * (p1.0 - p2.0) - p1.0 * (p1.1 - p2.1),
                p1.0 == p2.0,
                rise == p1.1 - p2.1,
                x == p1.0,
        ;
        assert(run * qy == 0 && (x - qx * 1) * run == 0 && (qy - qy * 1) * rise == 0 && rise * x == x * rise && c * 1 == c) by (nonlinear_arith)
            requires
                run == 0,
        ;
        assert(on_line(l, x, qy, 1));
        assert(perpendicular_from(l, line_projection(p1, p2, q), q));
    } else if p1.1 == p2.1 {
        let y = p1.1 as int;
        assert(rise == 0);
        assert(c == y * run) by (nonlinear_arith)
            requires
                c == p1.1 * (p1.0 - p2.0) - p1.0 * (p1.1 - p2.1),
                p1.1 == p2.1,
                run == p1.0 - p2.0,
                y == p1.1,
        ;
        assert(rise * qx == 0 && (y - qy * 1) * rise == 0 && (qx - qx * 1) * run == 0 && run * y == y * run && c * 1 == c) by (nonlinear_arith)
            requires
                rise == 0,
        ;
        assert(on_line(l, qx, y, 1));
        assert(perpendicular_from(l, line_projection(p1, p2, q), q));
    } else {
        let a = run * run;
        let b = rise * rise;
        let m = rise * run;
        let x = a * qx + m * qy - rise * c;
        let y = b * qy + m * qx + run * c;
        let den = a + b;
        lemma_abs_mul_lt(run, run, 0x1_0000, 0x1_0000);
        lemma_abs_mul_lt(rise, rise, 0x1_0000, 0x1_0000);
        lemma_abs_mul_lt(rise, run, 0x1_0000, 0x1_0000);
        lemma_abs_mul_lt(p1.1 as int, run, 0x1_0000, 0x1_0000);
        lemma_abs_mul_lt(p1.0 as int, rise, 0x1_0000, 0x1_0000);
        lemma_abs_mul_lt(a, qx, 0x1_0000_0000, 0x1_0000);
        lemma_abs_mul_lt(b, qy, 0x1_0000_0000, 0x1_0000);
        lemma_abs_mul_lt(m, qy, 0x1_0000_0000, 0x1_0000);
        lemma_abs_mul_lt(m, qx, 0x1_0000_0000, 0x1_0000);
        lemma_abs_mul_lt(rise, c, 0x1_0000, 0x2_0000_0000);
        lemma_abs_mul_lt(run, c, 0x1_0000, 0x2_0000_0000);
        assert(line_projection(p1, p2, q).x == x);
        assert(line_projection(p1, p2, q).y == y);
        assert(line_projection(p1, p2, q).den == den);
        assert(run * y == run * (b * qy) + run * (m * qx) + run * (run * c)) by (nonlinear_arith)
            requires
                y == b * qy + m * qx + run * c,
        ;
        assert(rise * x == rise * (a * qx) + rise * (m * qy) - rise * (rise * c)) by (nonlinear_arith)
            requires
                x == a * qx + m * qy - rise * c,
        ;
        assert(run * (b * qy) == rise * (m * qy)) by (nonlinear_arith)
            requires
                b == rise * rise,
                m == rise * run,
        ;
        assert(run * (m * qx) == rise * (a * qx)) by (nonlinear_arith)
            requires
                a == run * run,
                m == rise * run,
        ;
        assert(run * (run * c) == c * a && rise * (rise * c) == c * b) by (nonlinear_arith)
            requires
                a == run * run,
                b == rise * rise,
        ;
        assert(c * den == c * a + c * b) by (nonlinear_arith)
            requires
                den == a + b,
        ;
        assert(x - qx * den == m * qy - rise * c - qx * b) by (nonlinear_arith)
            requires
                x == a * qx + m * qy - rise * c,
                den == a + b,
        ;
        assert(y - qy * den == m * qx + run * c - qy * a) by (nonlinear_arith)
            requires
                y == b * qy + m * qx + run * c,
                den == a + b,
        ;
        assert((m * qy - rise * c - qx * b) * run + (m * qx + run * c - qy * a) * rise == 0) by (nonlinear_arith)
            requires
                a == run * run,
                b == rise * rise,
                m == rise * run,
        ;
        assert(run * y == rise * x + c * den);
        assert((x - qx * den) * run + (y - qy * den) * rise == 0);
    }
}

proof fn lemma_ends_on_line(p1: Coord, p2: Coord, l: Line)
    requires
        is_line_through(l, p1, p2),
    ensures
        on_line(l, p1.0 as int, p1.1 as int, 1),
        on_line(l, p2.0 as int, p2.1 as int, 1),
{
    assert(on_line(l, p1.0 as int, p1.1 as int, 1) && on_line(l, p2.0 as int, p2.1 as int, 1)) by (nonlinear_arith)
        requires
            l.rise == p1.1 - p2.1,
            l.run == p1.0 - p2.0,
            l.intercept == p1.1 * (p1.0 - p2.0) - p1.0 * (p1.1 - p2.1),
    ;
}

/// The closest point lies on the segment itself, never on the line beyond
/// it: it is on the line through the ends, and between them by columns
/// (by rows too for a vertical segment).
pub proof fn lemma_segment_point_on_segment(p1: Coord, p2: Coord, q: Coord, l: Line)
    requires
        is_line_through(l, p1, p2),
    ensures
        on_line(l, segment_point(p1, p2, q).x as int, segment_point(p1, p2, q).y as int, segment_point(p1, p2, q).den as int),
        min_of(p1.0 as int, p2.0 as int) * segment_point(p1, p2, q).den <= segment_point(p1, p2, q).x,
        segment_point(p1, p2, q).x <= max_of(p1.0 as int, p2.0 as int) * segment_point(p1, p2, q).den,
        p1.0 == p2.0 ==> min_of(p1.1 as int, p2.1 as int) <= segment_point(p1, p2, q).y <= max_of(p1.1 as int, p2.1 as int),
{
    lemma_projection_is_perpendicular_foot(p1, p2, q, l);
    lemma_ends_on_line(p1, p2, l);
    lemma_projection_bounded(p1, p2, q);
    let r = segment_point(p1, p2, q);
    let d = r.den as int;
    if p1.0 == p2.0 {
        lemma_vertical_segment_clamps(p1, p2, q);
        assert(p1.0 * d == p1.0 && p1.0 as int * 1 == p1.0) by (nonlinear_arith)
            requires
                d == 1,
        ;
    } else {
        assert(r == corner(p1) || r == corner(p2) || r == line_projection(p1, p2, q));
        if r == corner(p1) || r == corner(p2) {
            assert(min_of(p1.0 as int, p2.0 as int) * 1 == min_of(p1.0 as int, p2.0 as int)
                && max_of(p1.0 as int, p2.0 as int) * 1 == max_of(p1.0 as int, p2.0 as int));
        }
    }
}

} // verus!
