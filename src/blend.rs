use vstd::prelude::*;
use vstd::arithmetic::div_mod::{lemma_div_is_ordered, lemma_div_by_multiple};

verus! {

/// The tile whose center lies at or before position `p` on an axis of `n`
/// tiles of nominal extent `t` (clamped into `[0, n)`).
pub open spec fn axis_cell(p: int, t: int, n: int) -> int {
    if 2 * p < t {
        0
    } else if (2 * p - t) / (2 * t) > n - 1 {
        n - 1
    } else {
        (2 * p - t) / (2 * t)
    }
}

/// The next tile along the axis, the last one standing in for itself.
pub open spec fn next_cell(c: int, n: int) -> int {
    if c + 1 > n - 1 {
        n - 1
    } else {
        c + 1
    }
}

/// How far `p` lies past the center of its cell toward the next center, in
/// units of `1 / (2 t)`, saturated to `[0, 2 t]`.
pub open spec fn axis_weight(p: int, t: int, n: int) -> int {
    let w = 2 * p - (2 * axis_cell(p, t, n) + 1) * t;
    if w < 0 {
        0
    } else if w > 2 * t {
        2 * t
    } else {
        w
    }
}

/// Bilinear blend of four values, scaled by `dx * dy`: the weights are
/// `a / dx` along x and `b / dy` along y.
pub open spec fn blend(v00: int, v10: int, v01: int, v11: int, a: int, dx: int, b: int, dy: int) -> int {
    v00 * (dx - a) * (dy - b) + v10 * a * (dy - b) + v01 * (dx - a) * b + v11 * a * b
}

pub proof fn lemma_term_bound(v: int, m: int, p: int, q: int)
    requires
        0 <= v <= m,
        p >= 0,
        q >= 0,
    ensures
        0 <= v * p * q <= m * p * q,
{
    assert(0 <= v * p * q <= m * p * q) by (nonlinear_arith)
        requires 0 <= v <= m, p >= 0, q >= 0;
}

/// A blend of values in `[0, m]` lies in `[0, m * dx * dy]`.
pub proof fn lemma_blend_bounds(v00: int, v10: int, v01: int, v11: int, a: int, dx: int, b: int, dy: int, m: int)
    requires
        0 <= v00 <= m,
        0 <= v10 <= m,
        0 <= v01 <= m,
        0 <= v11 <= m,
        0 <= a <= dx,
        0 <= b <= dy,
    ensures
        0 <= v00 * (dx - a) * (dy - b) <= m * (dx - a) * (dy - b),
        0 <= v10 * a * (dy - b) <= m * a * (dy - b),
        0 <= v01 * (dx - a) * b <= m * (dx - a) * b,
        0 <= v11 * a * b <= m * a * b,
        0 <= blend(v00, v10, v01, v11, a, dx, b, dy) <= m * dx * dy,
{
    lemma_term_bound(v00, m, dx - a, dy - b);
    lemma_term_bound(v10, m, a, dy - b);
    lemma_term_bound(v01, m, dx - a, b);
    lemma_term_bound(v11, m, a, b);
    assert(m * (dx - a) * (dy - b) + m * a * (dy - b) + m * (dx - a) * b + m * a * b == m * dx * dy)
        by (nonlinear_arith);
}

/// Four equal values blend to that value.
pub proof fn lemma_blend_equal(v: int, a: int, dx: int, b: int, dy: int)
    ensures
        blend(v, v, v, v, a, dx, b, dy) == v * dx * dy,
{
    assert(v * (dx - a) * (dy - b) + v * a * (dy - b) + v * (dx - a) * b + v * a * b == v * dx * dy)
        by (nonlinear_arith);
}

/// `s * v * dx * dy / (dx * dy) == s * v`.
pub proof fn lemma_cancel(s: int, v: int, dx: int, dy: int)
    requires
        s >= 0,
        v >= 0,
        dx >= 1,
        dy >= 1,
    ensures
        (s * (v * dx * dy)) / (dx * dy) == s * v,
{
    assert(s * (v * dx * dy) == (s * v) * (dx * dy)) by (nonlinear_arith);
    assert(s * v >= 0) by (nonlinear_arith)
        requires s >= 0, v >= 0;
    assert(dx * dy >= 1) by (nonlinear_arith)
        requires dx >= 1, dy >= 1;
    lemma_div_by_multiple(s * v, dx * dy);
}

/// A scaled blend of values in `[0, m]`, divided by `dx * dy`, lies in `[0, s * m]`.
pub proof fn lemma_scaled_blend_bound(s: int, bl: int, m: int, dx: int, dy: int)
    requires
        s >= 0,
        m >= 0,
        0 <= bl <= m * dx * dy,
        dx >= 1,
        dy >= 1,
    ensures
        0 <= (s * bl) / (dx * dy) <= s * m,
{
    assert(0 <= s * bl <= s * (m * dx * dy)) by (nonlinear_arith)
        requires s >= 0, 0 <= bl <= m * dx * dy;
    assert(dx * dy >= 1) by (nonlinear_arith)
        requires dx >= 1, dy >= 1;
    lemma_div_is_ordered(0, s * bl, dx * dy);
    lemma_div_is_ordered(s * bl, s * (m * dx * dy), dx * dy);
    lemma_cancel(s, m, dx, dy);
}

pub fn axis_cell_of(p: u32, t: u32, n: u32) -> (r: u32)
    requires
        t >= 1,
        n >= 1,
    ensures
        r == axis_cell(p as int, t as int, n as int),
        r < n,
{
    let twice_p: u64 = 2 * p as u64;
    if twice_p < t as u64 {
        0
    } else {
        let q: u64 = (twice_p - t as u64) / (2 * t as u64);
        if q > (n - 1) as u64 {
            n - 1
        } else {
            q as u32
        }
    }
}

pub fn axis_weight_of(p: u32, t: u32, n: u32) -> (r: u64)
    requires
        t >= 1,
        n >= 1,
    ensures
        r == axis_weight(p as int, t as int, n as int),
        r <= 2 * t,
{
    let c = axis_cell_of(p, t, n);
    let twice_p: u128 = 2 * p as u128;
    proof {
        assert((2 * c + 1) * t <= 0x2_0000_0000 * 0x1_0000_0000) by (nonlinear_arith)
            requires c < 0x1_0000_0000, t < 0x1_0000_0000;
    }
    let center: u128 = (2 * c as u128 + 1) * t as u128;
    if twice_p < center {
        0
    } else if twice_p - center > 2 * t as u128 {
        2 * t as u64
    } else {
        (twice_p - center) as u64
    }
}

} // verus!
