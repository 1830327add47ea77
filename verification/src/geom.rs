//! Fixed-point 2D geometry primitives.
//!
//! All coordinates are signed fixed-point numbers held in `i32`, measured in
//! subunits of 1/256 of a pixel ([`SCALE`]).  Every stored coordinate is kept
//! within [`MAX_COORD`] subunits in magnitude, which bounds all intermediate
//! products so that the arithmetic below can be proved free of overflow.

use vstd::arithmetic::div_mod::{
    lemma_div_multiples_vanish, lemma_fundamental_div_mod_converse,
};
use vstd::prelude::*;

verus! {

/// Subunits per pixel: coordinates carry 8 fractional bits.
pub const SCALE: i32 = 256;

/// Largest coordinate magnitude in subunits (65536 pixels either way).
pub const MAX_COORD: i32 = 16777216;

/// A coordinate that may be stored in a figure.
pub open spec fn coord_ok(v: int) -> bool {
    -(MAX_COORD as int) <= v && v <= MAX_COORD as int
}

/// A point of the plane, in subunits.
#[derive(Clone, Copy, PartialEq, Eq, Structural, Debug)]
pub struct Point2 {
    pub x: i32,
    pub y: i32,
}

/// A point together with the pen width in force there, in subunits.
///
/// The weight `w` carries the local pen width along a flattened curve; it is
/// ignored by filling and read by stroking.
#[derive(Clone, Copy, PartialEq, Eq, Structural, Debug)]
pub struct WeightedPoint2 {
    pub x: i32,
    pub y: i32,
    pub w: i32,
}

pub open spec fn pt_ok(p: Point2) -> bool {
    coord_ok(p.x as int) && coord_ok(p.y as int)
}

pub open spec fn wpt_ok(p: WeightedPoint2) -> bool {
    coord_ok(p.x as int) && coord_ok(p.y as int) && 0 <= p.w && p.w <= MAX_COORD
}

/// Clamping that keeps a computed coordinate within storable range.
pub open spec fn clamp_coord_spec(v: int) -> int {
    if v < -(MAX_COORD as int) {
        -(MAX_COORD as int)
    } else if v > MAX_COORD as int {
        MAX_COORD as int
    } else {
        v
    }
}

pub fn clamp_coord(v: i64) -> (r: i32)
    ensures
        r as int == clamp_coord_spec(v as int),
{
    if v < -(MAX_COORD as i64) {
        -MAX_COORD
    } else if v > MAX_COORD as i64 {
        MAX_COORD
    } else {
        v as i32
    }
}

/// Floor division of a possibly negative numerator by a positive divisor.
///
/// In specifications, `/` on `int` is Euclidean division, which for a
/// positive divisor is exactly the floor; the executable code reaches the
/// same value through unsigned division on magnitudes.
pub fn div_floor(n: i64, d: u64) -> (q: i64)
    requires
        1 <= d,
        -0x4000_0000_0000_0000 < n < 0x4000_0000_0000_0000,
    ensures
        q as int == n as int / d as int,
{
    if n >= 0 {
        let qm = (n as u64) / d;
        proof {
            assert(qm <= n as u64) by (nonlinear_arith)
                requires qm == n as u64 / d && d >= 1;
        }
        qm as i64
    } else {
        let m = (-n) as u64;
        let qm = m / d;
        let rm = m % d;
        proof {
            assert(m as int == d as int * (qm as int) + rm as int && rm < d && qm <= m)
                by (nonlinear_arith)
                requires qm == m as u64 / d && rm == m as u64 % d && d >= 1;
            if rm == 0 {
                assert(n as int == -(qm as int) * (d as int) + 0) by (nonlinear_arith)
                    requires
                        m as int == d as int * (qm as int) + rm as int,
                        rm == 0,
                        n as int == -(m as int),
                ;
                lemma_fundamental_div_mod_converse(n as int, d as int, -(qm as int), 0);
            } else {
                assert(n as int == (-(qm as int) - 1) * (d as int) + (d as int - rm as int))
                    by (nonlinear_arith)
                    requires
                        m as int == d as int * (qm as int) + rm as int,
                        n as int == -(m as int),
                ;
                lemma_fundamental_div_mod_converse(
                    n as int,
                    d as int,
                    -(qm as int) - 1,
                    d as int - rm as int,
                );
            }
        }
        if rm == 0 {
            -(qm as i64)
        } else {
            -(qm as i64) - 1
        }
    }
}

/// The floor of the average of two coordinates.
pub open spec fn mid_spec(a: int, b: int) -> int {
    (a + b) / 2
}

/// Midpoint of two in-range values, rounding toward negative infinity.
pub fn mid_coord(a: i32, b: i32) -> (r: i32)
    requires
        coord_ok(a as int),
        coord_ok(b as int),
    ensures
        r as int == mid_spec(a as int, b as int),
        coord_ok(r as int),
{
    let r = div_floor(a as i64 + b as i64, 2);
    r as i32
}

/// Squared Euclidean distance between two points, exactly, in subunits
/// squared.
pub open spec fn dist_sq_spec(ax: int, ay: int, bx: int, by: int) -> int {
    (ax - bx) * (ax - bx) + (ay - by) * (ay - by)
}

pub fn dist_sq(ax: i32, ay: i32, bx: i32, by: i32) -> (r: i64)
    requires
        coord_ok(ax as int),
        coord_ok(ay as int),
        coord_ok(bx as int),
        coord_ok(by as int),
    ensures
        r as int == dist_sq_spec(ax as int, ay as int, bx as int, by as int),
        0 <= r,
{
    let dx = ax as i64 - bx as i64;
    let dy = ay as i64 - by as i64;
    proof {
        assert(dx * dx <= 0x4_0000_0000_0000 && dx * dx >= 0) by (nonlinear_arith)
            requires -0x200_0000 <= dx <= 0x200_0000;
        assert(dy * dy <= 0x4_0000_0000_0000 && dy * dy >= 0) by (nonlinear_arith)
            requires -0x200_0000 <= dy <= 0x200_0000;
    }
    dx * dx + dy * dy
}

/// Division rounding toward zero, for a positive divisor.
pub open spec fn div_trunc_spec(n: int, d: int) -> int {
    if n >= 0 {
        n / d
    } else {
        -((-n) / d)
    }
}

pub fn div_trunc(n: i64, d: u64) -> (q: i64)
    requires
        1 <= d,
        -0x4000_0000_0000_0000 < n < 0x4000_0000_0000_0000,
    ensures
        q as int == div_trunc_spec(n as int, d as int),
{
    if n >= 0 {
        let qm = (n as u64) / d;
        proof {
            assert(qm <= n as u64) by (nonlinear_arith)
                requires qm == n as u64 / d && d >= 1;
        }
        qm as i64
    } else {
        let m = (-n) as u64;
        let qm = m / d;
        proof {
            assert(qm <= m) by (nonlinear_arith)
                requires qm == m / d && d >= 1;
        }
        -(qm as i64)
    }
}

/// Division rounding toward zero for any nonzero divisor, in 128 bits.
pub open spec fn div_trunc2_spec(n: int, d: int) -> int {
    if d == 0 {
        0
    } else if (n >= 0) == (d >= 0) {
        abs_spec(n) / abs_spec(d)
    } else {
        -(abs_spec(n) / abs_spec(d))
    }
}

pub open spec fn abs_spec(n: int) -> int {
    if n >= 0 {
        n
    } else {
        -n
    }
}

pub fn div_trunc128(n: i128, d: i128) -> (q: i128)
    requires
        d != 0,
        -0x4000_0000_0000_0000_0000_0000_0000_0000 < n,
        n < 0x4000_0000_0000_0000_0000_0000_0000_0000,
        -0x4000_0000_0000_0000_0000_0000_0000_0000 < d,
        d < 0x4000_0000_0000_0000_0000_0000_0000_0000,
    ensures
        q as int == div_trunc2_spec(n as int, d as int),
        abs_spec(q as int) <= abs_spec(n as int),
{
    let nm: u128 = if n >= 0 {
        n as u128
    } else {
        (-n) as u128
    };
    let dm: u128 = if d >= 0 {
        d as u128
    } else {
        (-d) as u128
    };
    let qm = nm / dm;
    proof {
        assert(qm <= nm) by (nonlinear_arith)
            requires qm == nm / dm && dm >= 1;
    }
    if (n >= 0) == (d >= 0) {
        qm as i128
    } else {
        -(qm as i128)
    }
}

/// `r` is the integer square root of `n`.
pub open spec fn is_sqrt(n: int, r: int) -> bool {
    0 <= r && r * r <= n && n < (r + 1) * (r + 1)
}

/// Integer square root by binary search.
pub fn isqrt64(n: u64) -> (r: u64)
    ensures
        is_sqrt(n as int, r as int),
{
    let mut lo: u64 = 0;
    let mut hi: u64 = 0xffff_ffff;
    proof {
        assert((hi as int + 1) * (hi as int + 1) > n as int) by (nonlinear_arith)
            requires hi == 0xffff_ffffu64 && n <= 0xffff_ffff_ffff_ffffu64;
    }
    while lo < hi
        invariant
            lo <= hi <= 0xffff_ffff,
            lo as int * lo as int <= n as int,
            (hi as int + 1) * (hi as int + 1) > n as int,
        decreases hi - lo,
    {
        let mid = lo + (hi - lo + 1) / 2;
        proof {
            assert(mid * mid < 0xffff_ffff_ffff_ffffu64) by (nonlinear_arith)
                requires mid <= 0xffff_ffffu64;
        }
        if mid * mid <= n {
            lo = mid;
        } else {
            hi = mid - 1;
        }
    }
    lo
}

/// Integer square root by binary search, for wide products.
pub fn isqrt128(n: u128) -> (r: u128)
    ensures
        is_sqrt(n as int, r as int),
{
    let mut lo: u128 = 0;
    let mut hi: u128 = 0xffff_ffff_ffff_ffff;
    proof {
        assert((hi as int + 1) * (hi as int + 1) > n as int) by (nonlinear_arith)
            requires
                hi == 0xffff_ffff_ffff_ffffu128 && n
                    <= 0xffff_ffff_ffff_ffff_ffff_ffff_ffff_ffffu128,
        ;
    }
    while lo < hi
        invariant
            lo <= hi <= 0xffff_ffff_ffff_ffff,
            lo as int * lo as int <= n as int,
            (hi as int + 1) * (hi as int + 1) > n as int,
        decreases hi - lo,
    {
        let mid = lo + (hi - lo + 1) / 2;
        proof {
            assert(mid * mid < 0xffff_ffff_ffff_ffff_ffff_ffff_ffff_ffffu128)
                by (nonlinear_arith)
                requires mid <= 0xffff_ffff_ffff_ffffu128;
        }
        if mid * mid <= n {
            lo = mid;
        } else {
            hi = mid - 1;
        }
    }
    lo
}

/// The integer square root as a mathematical function.
pub open spec fn sqrt_spec(n: int) -> int {
    choose|r: int| is_sqrt(n, r)
}

pub proof fn lemma_sqrt_unique(n: int, r: int)
    requires
        is_sqrt(n, r),
    ensures
        sqrt_spec(n) == r,
{
    assert(exists|x: int| is_sqrt(n, x)) by {
        assert(is_sqrt(n, r));
    }
    let s = sqrt_spec(n);
    assert(is_sqrt(n, s));
    assert(r == s) by (nonlinear_arith)
        requires
            0 <= r,
            r * r <= n < (r + 1) * (r + 1),
            0 <= s,
            s * s <= n < (s + 1) * (s + 1),
    ;
}

/// 90 degree rotation of a direction vector: the side a stroke is offset to.
pub open spec fn right_x(dx: int, dy: int) -> int {
    dy
}

pub open spec fn right_y(dx: int, dy: int) -> int {
    -dx
}

/// Cross product of two direction vectors.
pub open spec fn cross_spec(ax: int, ay: int, bx: int, by: int) -> int {
    ax * by - ay * bx
}

/// Dot product of two direction vectors.
pub open spec fn dot_spec(ax: int, ay: int, bx: int, by: int) -> int {
    ax * bx + ay * by
}

/// Length of a direction vector, rounded down.
pub open spec fn vec_len_spec(dx: int, dy: int) -> int {
    sqrt_spec(dx * dx + dy * dy)
}

/// Where a point lands when pushed half the pen width to the right of the
/// direction `(dx, dy)`: the zero vector moves the point nowhere (the stable
/// fallback for a degenerate segment), and the result is clamped to storable
/// range.
pub open spec fn offset_x_spec(px: int, dx: int, dy: int, half_w: int) -> int {
    let l = vec_len_spec(dx, dy);
    if l == 0 {
        px
    } else {
        clamp_coord_spec(px + div_trunc_spec(right_x(dx, dy) * half_w, l))
    }
}

pub open spec fn offset_y_spec(py: int, dx: int, dy: int, half_w: int) -> int {
    let l = vec_len_spec(dx, dy);
    if l == 0 {
        py
    } else {
        clamp_coord_spec(py + div_trunc_spec(right_y(dx, dy) * half_w, l))
    }
}

/// Push `p` perpendicular to the direction `(dx, dy)` by `half_w` subunits.
pub fn offset_point(p: Point2, dx: i32, dy: i32, half_w: i32) -> (q: Point2)
    requires
        pt_ok(p),
        -0x200_0000 <= dx <= 0x200_0000,
        -0x200_0000 <= dy <= 0x200_0000,
        0 <= half_w <= MAX_COORD,
    ensures
        q.x as int == offset_x_spec(p.x as int, dx as int, dy as int, half_w as int),
        q.y as int == offset_y_spec(p.y as int, dx as int, dy as int, half_w as int),
        pt_ok(q),
{
    proof {
        lemma_prod_bound_25(dx as int, dx as int);
        lemma_prod_bound_25(dy as int, dy as int);
        assert(dx as int * dx as int >= 0 && dy as int * dy as int >= 0) by (nonlinear_arith);
    }
    let nsq: u64 = ((dx as i64) * (dx as i64) + (dy as i64) * (dy as i64)) as u64;
    let l = isqrt64(nsq);
    proof {
        lemma_sqrt_unique(nsq as int, l as int);
    }
    if l == 0 {
        p
    } else {
        proof {
            assert(right_x(dx as int, dy as int) * half_w as int <= 0x400_0000_0000_0000
                && right_x(dx as int, dy as int) * half_w as int >= -0x400_0000_0000_0000)
                by (nonlinear_arith)
                requires
                    -0x200_0000 <= dy as int <= 0x200_0000,
                    0 <= half_w as int <= 0x100_0000,
            ;
            assert(right_y(dx as int, dy as int) * half_w as int <= 0x400_0000_0000_0000
                && right_y(dx as int, dy as int) * half_w as int >= -0x400_0000_0000_0000)
                by (nonlinear_arith)
                requires
                    -0x200_0000 <= dx as int <= 0x200_0000,
                    0 <= half_w as int <= 0x100_0000,
            ;
        }
        let ox = div_trunc((dy as i64) * (half_w as i64), l);
        let oy = div_trunc((-(dx as i64)) * (half_w as i64), l);
        Point2 { x: clamp_coord(p.x as i64 + ox), y: clamp_coord(p.y as i64 + oy) }
    }
}

/// Intersection point of the infinite lines through `a0a1` and `b0b1`.
///
/// The parallel and degenerate cases have a zero denominator and no
/// intersection; otherwise the point is `a0 + t * (a1 - a0)` with
/// `t = cross(b0 - a0, d2) / cross(d1, d2)`, evaluated in integers with
/// truncating division and clamped to storable range.
pub open spec fn isect_den_spec(a0: Point2, a1: Point2, b0: Point2, b1: Point2) -> int {
    cross_spec(
        a1.x - a0.x,
        a1.y - a0.y,
        b1.x - b0.x,
        b1.y - b0.y,
    )
}

pub open spec fn isect_num_spec(a0: Point2, a1: Point2, b0: Point2, b1: Point2) -> int {
    cross_spec(
        b0.x - a0.x,
        b0.y - a0.y,
        b1.x - b0.x,
        b1.y - b0.y,
    )
}

pub open spec fn isect_x_spec(a0: Point2, a1: Point2, b0: Point2, b1: Point2) -> int {
    clamp_coord_spec(
        a0.x + div_trunc2_spec(
            (a1.x - a0.x) * isect_num_spec(a0, a1, b0, b1),
            isect_den_spec(a0, a1, b0, b1),
        ),
    )
}

pub open spec fn isect_y_spec(a0: Point2, a1: Point2, b0: Point2, b1: Point2) -> int {
    clamp_coord_spec(
        a0.y + div_trunc2_spec(
            (a1.y - a0.y) * isect_num_spec(a0, a1, b0, b1),
            isect_den_spec(a0, a1, b0, b1),
        ),
    )
}

pub fn intersection(a0: Point2, a1: Point2, b0: Point2, b1: Point2) -> (r: Option<Point2>)
    requires
        pt_ok(a0),
        pt_ok(a1),
        pt_ok(b0),
        pt_ok(b1),
    ensures
        r is Some <==> isect_den_spec(a0, a1, b0, b1) != 0,
        r is Some ==> {
            let q = r->Some_0;
            q.x as int == isect_x_spec(a0, a1, b0, b1) && q.y as int == isect_y_spec(
                a0,
                a1,
                b0,
                b1,
            ) && pt_ok(q)
        },
{
    let d1x = (a1.x - a0.x) as i64;
    let d1y = (a1.y - a0.y) as i64;
    let d2x = (b1.x - b0.x) as i64;
    let d2y = (b1.y - b0.y) as i64;
    proof {
        lemma_prod_bound_25(d1x as int, d2y as int);
        lemma_prod_bound_25(d1y as int, d2x as int);
    }
    let den: i64 = d1x * d2y - d1y * d2x;
    if den == 0 {
        None
    } else {
        let wx = (b0.x - a0.x) as i64;
        let wy = (b0.y - a0.y) as i64;
        proof {
            lemma_prod_bound_25(wx as int, d2y as int);
            lemma_prod_bound_25(wy as int, d2x as int);
        }
        let num: i64 = wx * d2y - wy * d2x;
        proof {
            lemma_prod_bound_52(d1x as int, num as int);
            lemma_prod_bound_52(d1y as int, num as int);
        }
        let tx = div_trunc128((d1x as i128) * (num as i128), den as i128);
        let ty = div_trunc128((d1y as i128) * (num as i128), den as i128);
        let q = Point2 {
            x: clamp_coord_i128(a0.x as i128 + tx),
            y: clamp_coord_i128(a0.y as i128 + ty),
        };
        Some(q)
    }
}

pub proof fn lemma_prod_bound_25(a: int, b: int)
    requires
        -0x200_0000 <= a <= 0x200_0000,
        -0x200_0000 <= b <= 0x200_0000,
    ensures
        -0x4_0000_0000_0000 <= a * b <= 0x4_0000_0000_0000,
{
    assert(-0x4_0000_0000_0000 <= a * b <= 0x4_0000_0000_0000) by (nonlinear_arith)
        requires
            -0x200_0000 <= a <= 0x200_0000,
            -0x200_0000 <= b <= 0x200_0000,
    ;
}

proof fn lemma_prod_bound_52(a: int, b: int)
    requires
        -0x200_0000 <= a <= 0x200_0000,
        -0x8_0000_0000_0000 <= b <= 0x8_0000_0000_0000,
    ensures
        -0x10_0000_0000_0000_0000_0000 <= a * b <= 0x10_0000_0000_0000_0000_0000,
{
    assert(-0x10_0000_0000_0000_0000_0000 <= a * b <= 0x10_0000_0000_0000_0000_0000)
        by (nonlinear_arith)
        requires
            -0x200_0000 <= a <= 0x200_0000,
            -0x8_0000_0000_0000 <= b <= 0x8_0000_0000_0000,
    ;
}

pub fn clamp_coord_i128(v: i128) -> (r: i32)
    ensures
        r as int == clamp_coord_spec(v as int),
{
    if v < -(MAX_COORD as i128) {
        -MAX_COORD
    } else if v > MAX_COORD as i128 {
        MAX_COORD
    } else {
        v as i32
    }
}

/// `(u * v + w * z) / 256 + t`, floored and clamped: the building block of
/// every affine-transform entry and application.
pub open spec fn combo256_spec(u: int, v: int, w: int, z: int, t: int) -> int {
    clamp_coord_spec((u * v + w * z) / 256 + t)
}

pub fn combo256(u: i32, v: i32, w: i32, z: i32, t: i32) -> (r: i32)
    requires
        coord_ok(u as int),
        coord_ok(v as int),
        coord_ok(w as int),
        coord_ok(z as int),
        coord_ok(t as int),
    ensures
        r as int == combo256_spec(u as int, v as int, w as int, z as int, t as int),
        coord_ok(r as int),
{
    proof {
        lemma_prod_bound_25(u as int, v as int);
        lemma_prod_bound_25(w as int, z as int);
    }
    let n: i64 = (u as i64) * (v as i64) + (w as i64) * (z as i64);
    let q = div_floor(n, 256);
    clamp_coord(q + t as i64)
}

/// An affine map over the plane.
///
/// The linear entries `a`, `b`, `c`, `d` are fixed-point with 8 fractional
/// bits (256 is one); `e` and `f` translate in coordinate subunits.  A
/// weighted point maps through the positional part only; its weight passes
/// unchanged.  All entries are kept within storable coordinate range.
#[derive(Clone, Copy, PartialEq, Eq, Structural, Debug)]
pub struct Transform {
    pub a: i32,
    pub b: i32,
    pub c: i32,
    pub d: i32,
    pub e: i32,
    pub f: i32,
}

pub open spec fn tf_ok(t: Transform) -> bool {
    coord_ok(t.a as int) && coord_ok(t.b as int) && coord_ok(t.c as int) && coord_ok(t.d as int)
        && coord_ok(t.e as int) && coord_ok(t.f as int)
}

pub open spec fn tf_apply_x_spec(t: Transform, x: int, y: int) -> int {
    combo256_spec(t.a as int, x, t.b as int, y, t.e as int)
}

pub open spec fn tf_apply_y_spec(t: Transform, x: int, y: int) -> int {
    combo256_spec(t.c as int, x, t.d as int, y, t.f as int)
}

impl Transform {
    /// The identity transform.
    pub fn new() -> (t: Transform)
        ensures
            t == (Transform { a: 256i32, b: 0i32, c: 0i32, d: 256i32, e: 0i32, f: 0i32 }),
            tf_ok(t),
    {
        Transform { a: 256, b: 0, c: 0, d: 256, e: 0, f: 0 }
    }

    /// A transform from its six entries, clamped to storable range.
    pub fn with_parts(a: i64, b: i64, c: i64, d: i64, e: i64, f: i64) -> (t: Transform)
        ensures
            t.a as int == clamp_coord_spec(a as int),
            t.b as int == clamp_coord_spec(b as int),
            t.c as int == clamp_coord_spec(c as int),
            t.d as int == clamp_coord_spec(d as int),
            t.e as int == clamp_coord_spec(e as int),
            t.f as int == clamp_coord_spec(f as int),
            tf_ok(t),
    {
        Transform {
            a: clamp_coord(a),
            b: clamp_coord(b),
            c: clamp_coord(c),
            d: clamp_coord(d),
            e: clamp_coord(e),
            f: clamp_coord(f),
        }
    }

    /// Map a weighted point; the weight passes through unchanged.
    pub fn apply(&self, p: WeightedPoint2) -> (q: WeightedPoint2)
        requires
            tf_ok(*self),
            wpt_ok(p),
        ensures
            q.x as int == tf_apply_x_spec(*self, p.x as int, p.y as int),
            q.y as int == tf_apply_y_spec(*self, p.x as int, p.y as int),
            q.w == p.w,
            wpt_ok(q),
    {
        let x = combo256(self.a, p.x, self.b, p.y, self.e);
        let y = combo256(self.c, p.x, self.d, p.y, self.f);
        WeightedPoint2 { x, y, w: p.w }
    }

    /// This transform followed by a translation of `(tx, ty)` subunits.
    pub fn translate(self, tx: i32, ty: i32) -> (t: Transform)
        requires
            tf_ok(self),
        ensures
            t.a == self.a && t.b == self.b && t.c == self.c && t.d == self.d,
            t.e as int == clamp_coord_spec(self.e as int + tx as int),
            t.f as int == clamp_coord_spec(self.f as int + ty as int),
            tf_ok(t),
    {
        Transform {
            e: clamp_coord(self.e as i64 + tx as i64),
            f: clamp_coord(self.f as i64 + ty as i64),
            ..self
        }
    }

    /// This transform followed by an axis scale; `sx` and `sy` are
    /// fixed-point with 8 fractional bits.
    pub fn scale(self, sx: i32, sy: i32) -> (t: Transform)
        requires
            tf_ok(self),
            coord_ok(sx as int),
            coord_ok(sy as int),
        ensures
            t.a as int == combo256_spec(sx as int, self.a as int, 0, 0, 0),
            t.b as int == combo256_spec(sx as int, self.b as int, 0, 0, 0),
            t.e as int == combo256_spec(sx as int, self.e as int, 0, 0, 0),
            t.c as int == combo256_spec(sy as int, self.c as int, 0, 0, 0),
            t.d as int == combo256_spec(sy as int, self.d as int, 0, 0, 0),
            t.f as int == combo256_spec(sy as int, self.f as int, 0, 0, 0),
            tf_ok(t),
    {
        Transform {
            a: combo256(sx, self.a, 0, 0, 0),
            b: combo256(sx, self.b, 0, 0, 0),
            e: combo256(sx, self.e, 0, 0, 0),
            c: combo256(sy, self.c, 0, 0, 0),
            d: combo256(sy, self.d, 0, 0, 0),
            f: combo256(sy, self.f, 0, 0, 0),
        }
    }

    /// This transform followed by `o`: entry-wise matrix product, each entry
    /// floored and clamped.  Because entries round to subunits, applying the
    /// composition may differ from applying the two maps in sequence by a
    /// subunit.
    pub fn then(self, o: &Transform) -> (t: Transform)
        requires
            tf_ok(self),
            tf_ok(*o),
        ensures
            t.a as int == combo256_spec(o.a as int, self.a as int, o.b as int, self.c as int, 0),
            t.b as int == combo256_spec(o.a as int, self.b as int, o.b as int, self.d as int, 0),
            t.c as int == combo256_spec(o.c as int, self.a as int, o.d as int, self.c as int, 0),
            t.d as int == combo256_spec(o.c as int, self.b as int, o.d as int, self.d as int, 0),
            t.e as int == combo256_spec(
                o.a as int,
                self.e as int,
                o.b as int,
                self.f as int,
                o.e as int,
            ),
            t.f as int == combo256_spec(
                o.c as int,
                self.e as int,
                o.d as int,
                self.f as int,
                o.f as int,
            ),
            tf_ok(t),
    {
        Transform {
            a: combo256(o.a, self.a, o.b, self.c, 0),
            b: combo256(o.a, self.b, o.b, self.d, 0),
            c: combo256(o.c, self.a, o.d, self.c, 0),
            d: combo256(o.c, self.b, o.d, self.d, 0),
            e: combo256(o.a, self.e, o.b, self.f, o.e),
            f: combo256(o.c, self.e, o.d, self.f, o.f),
        }
    }
}

/// The identity transform maps every storable point to itself.
pub proof fn lemma_identity_apply(x: int, y: int)
    requires
        coord_ok(x),
        coord_ok(y),
    ensures
        tf_apply_x_spec(Transform { a: 256, b: 0, c: 0, d: 256, e: 0, f: 0 }, x, y) == x,
        tf_apply_y_spec(Transform { a: 256, b: 0, c: 0, d: 256, e: 0, f: 0 }, x, y) == y,
{
    assert(256 * x + 0 * y == 256 * x) by (nonlinear_arith);
    assert(0 * x + 256 * y == 256 * y) by (nonlinear_arith);
    lemma_div_multiples_vanish(x, 256);
    lemma_div_multiples_vanish(y, 256);
}

} // verus!
