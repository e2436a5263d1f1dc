//! Fixed-point planar vectors and the integer helpers the physics is built on.
//!
//! Coordinates are signed integers in an arbitrary length unit. Every stored
//! coordinate is kept within `[-COORD_LIMIT, COORD_LIMIT]`, which leaves room
//! for products of two differences in 128-bit intermediates.
use vstd::prelude::*;

verus! {

/// Largest magnitude a stored coordinate may take: a machine limit of the
/// fixed-point range, far beyond any simulated domain.
pub const COORD_LIMIT: i64 = 1073741824;

/// A vector (or point) with integer components.
#[derive(Clone, Copy, Debug, PartialEq, Eq, Structural)]
pub struct Vec2 {
    pub x: i64,
    pub y: i64,
}

impl View for Vec2 {
    type V = (int, int);

    open spec fn view(&self) -> (int, int) {
        (self.x as int, self.y as int)
    }
}

/// Saturates a coordinate into the representable range.
pub open spec fn clamp_coord(v: int) -> int {
    if v < -COORD_LIMIT {
        -COORD_LIMIT as int
    } else if v > COORD_LIMIT {
        COORD_LIMIT as int
    } else {
        v
    }
}

pub open spec fn coord_ok(v: int) -> bool {
    -COORD_LIMIT <= v <= COORD_LIMIT
}

pub open spec fn point_ok(p: (int, int)) -> bool {
    coord_ok(p.0) && coord_ok(p.1)
}

pub open spec fn clamp_point(p: (int, int)) -> (int, int) {
    (clamp_coord(p.0), clamp_coord(p.1))
}

pub open spec fn vadd(a: (int, int), b: (int, int)) -> (int, int) {
    (a.0 + b.0, a.1 + b.1)
}

pub open spec fn vsub(a: (int, int), b: (int, int)) -> (int, int) {
    (a.0 - b.0, a.1 - b.1)
}

pub open spec fn norm_sq(a: (int, int)) -> int {
    a.0 * a.0 + a.1 * a.1
}

/// Division rounding toward zero, as Rust's `/` does on signed integers.
pub open spec fn trunc_div(a: int, b: int) -> int {
    if a >= 0 {
        a / b
    } else {
        -((-a) / b)
    }
}

/// `r` is the integer square root of `n`.
pub open spec fn is_isqrt(n: int, r: int) -> bool {
    0 <= r && r * r <= n && n < (r + 1) * (r + 1)
}

/// The integer square root of a non-negative integer.
pub open spec fn sqrt_floor(n: int) -> int {
    choose|r: int| is_isqrt(n, r)
}

pub proof fn lemma_isqrt_unique(n: int, r: int, s: int)
    requires
        is_isqrt(n, r),
        is_isqrt(n, s),
    ensures
        r == s,
{
    if r < s {
        assert((r + 1) * (r + 1) <= s * s) by (nonlinear_arith)
            requires
                0 <= r,
                r + 1 <= s,
        ;
    } else if s < r {
        assert((s + 1) * (s + 1) <= r * r) by (nonlinear_arith)
            requires
                0 <= s,
                s + 1 <= r,
        ;
    }
}

/// Any witness of the square root is the one `sqrt_floor` names.
pub proof fn lemma_sqrt_floor(n: int, r: int)
    requires
        is_isqrt(n, r),
    ensures
        sqrt_floor(n) == r,
{
    assert(is_isqrt(n, sqrt_floor(n)));
    lemma_isqrt_unique(n, r, sqrt_floor(n));
}

/// Integer square root by bisection.
pub fn isqrt(n: u128) -> (r: u64)
    ensures
        is_isqrt(n as int, r as int),
        r as int == sqrt_floor(n as int),
{
    let mut lo: u128 = 0;
    let mut hi: u128 = 0x1_0000_0000_0000_0000;
    assert(hi * hi > u128::MAX);
    while hi - lo > 1
        invariant
            lo < hi <= 0x1_0000_0000_0000_0000,
            lo * lo <= n,
            n < hi * hi,
        decreases hi - lo,
    {
        let mid: u128 = lo + (hi - lo) / 2;
        assert(mid < 0x1_0000_0000_0000_0000);
        assert(mid * mid < 0x1_0000_0000_0000_0000 * 0x1_0000_0000_0000_0000) by (nonlinear_arith)
            requires
                mid < 0x1_0000_0000_0000_0000,
        ;
        assert(mid * mid <= u128::MAX);
        if mid * mid <= n {
            lo = mid;
        } else {
            hi = mid;
        }
    }
    assert(hi == lo + 1);
    proof {
        lemma_sqrt_floor(n as int, lo as int);
    }
    lo as u64
}

/// Lengths are taken in steps of `1 / FINE` of a unit.
pub const FINE: i64 = 65536;

/// `FINE` times the length of a vector whose squared length is `n`,
/// rounded down.
pub open spec fn fine_len(n: int) -> int {
    sqrt_floor(n * (FINE * FINE))
}

/// The length of a vector with squared length `n`, in steps of `1 / FINE`.
pub fn fine_sqrt(n: u128) -> (r: u64)
    requires
        n <= 0x8000_0000_0000_0000,
    ensures
        r as int == fine_len(n as int),
        is_isqrt(n * (FINE * FINE), r as int),
        r <= 0x1_0000_0000_0000,
        n >= 1 ==> r >= FINE,
{
    let r = isqrt(n * 4294967296);
    assert(r <= 0x1_0000_0000_0000) by {
        if r > 0x1_0000_0000_0000 {
            assert(r * r > 0x1_0000_0000_0000 * 0x1_0000_0000_0000) by (nonlinear_arith)
                requires
                    r > 0x1_0000_0000_0000,
            ;
        }
    }
    assert(n >= 1 ==> r >= FINE) by {
        if n >= 1 && r < FINE {
            assert((r + 1) * (r + 1) <= 65536 * 65536) by (nonlinear_arith)
                requires
                    0 <= r < 65536,
            ;
        }
    }
    r
}

/// Signed division rounding toward zero.
pub fn div_trunc(a: i128, b: i128) -> (r: i128)
    requires
        b > 0,
        a > i128::MIN,
    ensures
        r == trunc_div(a as int, b as int),
        -(a as int) <= r <= a || a <= r <= -(a as int),
{
    if a >= 0 {
        assert(a / b <= a) by (nonlinear_arith)
            requires
                a >= 0,
                b > 0,
        ;
        a / b
    } else {
        let m: i128 = -a;
        assert(m / b <= m) by (nonlinear_arith)
            requires
                m >= 0,
                b > 0,
        ;
        -(m / b)
    }
}

/// Saturates a wide value into the coordinate range.
pub fn clamp_to_coord(v: i128) -> (r: i64)
    ensures
        r as int == clamp_coord(v as int),
{
    if v < -(COORD_LIMIT as i128) {
        -COORD_LIMIT
    } else if v > COORD_LIMIT as i128 {
        COORD_LIMIT
    } else {
        v as i64
    }
}

impl Vec2 {
    pub fn new(x: i64, y: i64) -> (r: Vec2)
        ensures
            r.x == x,
            r.y == y,
    {
        Vec2 { x, y }
    }
}

/// Rounding toward zero loses less than one divisor.
pub proof fn lemma_trunc_rem(x: int, s: int)
    requires
        s > 0,
    ensures
        -s < x - s * trunc_div(x, s) < s,
{
    if x >= 0 {
        vstd::arithmetic::div_mod::lemma_fundamental_div_mod(x, s);
        vstd::arithmetic::div_mod::lemma_mod_bound(x, s);
    } else {
        vstd::arithmetic::div_mod::lemma_fundamental_div_mod(-x, s);
        vstd::arithmetic::div_mod::lemma_mod_bound(-x, s);
        assert(s * (-((-x) / s)) == -(s * ((-x) / s))) by (nonlinear_arith);
    }
}

pub proof fn lemma_expand(a: int, b: int, c: int, d: int)
    ensures
        (a + b) * (c + d) == a * c + a * d + b * c + b * d,
        (a + b) * (a + b) == a * a + 2 * (a * b) + b * b,
        (a - b) * (a - b) == a * a - 2 * (a * b) + b * b,
{
    assert((a + b) * (c + d) == a * c + a * d + b * c + b * d) by (nonlinear_arith);
    assert((a + b) * (a + b) == a * a + 2 * (a * b) + b * b) by (nonlinear_arith);
    assert((a - b) * (a - b) == a * a - 2 * (a * b) + b * b) by (nonlinear_arith);
}

pub proof fn lemma_swap4(a: int, b: int, c: int, d: int)
    ensures
        (a * b) * (c * d) == (a * c) * (b * d),
{
    assert((a * b) * (c * d) == (a * c) * (b * d)) by (nonlinear_arith);
}

/// Lagrange's identity in the plane.
pub proof fn lemma_lagrange(ux: int, uy: int, vx: int, vy: int)
    ensures
        (ux * ux + uy * uy) * (vx * vx + vy * vy) - (ux * vx + uy * vy) * (ux * vx + uy * vy) == (ux
            * vy - uy * vx) * (ux * vy - uy * vx),
{
    lemma_expand(ux * ux, uy * uy, vx * vx, vy * vy);
    lemma_expand(ux * vx, uy * vy, 0, 0);
    lemma_expand(ux * vy, uy * vx, 0, 0);
    lemma_swap4(ux, ux, vx, vx);
    lemma_swap4(ux, ux, vy, vy);
    lemma_swap4(uy, uy, vx, vx);
    lemma_swap4(uy, uy, vy, vy);
    lemma_swap4(ux, vx, uy, vy);
    assert((ux * vx) * (uy * vy) == (ux * vy) * (uy * vx)) by (nonlinear_arith);
}

/// The dot product of two vectors is at most the product of bounds on
/// their lengths (Cauchy–Schwarz through Lagrange's identity).
pub proof fn lemma_dot_bound(ux: int, uy: int, vx: int, vy: int, bu: int, bv: int)
    requires
        bu >= 0,
        bv >= 0,
        ux * ux + uy * uy <= bu * bu,
        vx * vx + vy * vy <= bv * bv,
    ensures
        ux * vx + uy * vy <= bu * bv,
{
    let dot = ux * vx + uy * vy;
    let nu = ux * ux + uy * uy;
    let nv = vx * vx + vy * vy;
    lemma_lagrange(ux, uy, vx, vy);
    assert((ux * vy - uy * vx) * (ux * vy - uy * vx) >= 0) by (nonlinear_arith);
    assert(nu >= 0 && nv >= 0) by (nonlinear_arith)
        requires
            nu == ux * ux + uy * uy,
            nv == vx * vx + vy * vy,
    ;
    assert(nu * nv <= (bu * bu) * (bv * bv)) by (nonlinear_arith)
        requires
            0 <= nu <= bu * bu,
            0 <= nv <= bv * bv,
    ;
    if dot > bu * bv {
        assert(dot * dot > (bu * bv) * (bu * bv)) by (nonlinear_arith)
            requires
                dot > bu * bv,
                bu * bv >= 0,
        ;
        assert((bu * bu) * (bv * bv) == (bu * bv) * (bu * bv)) by (nonlinear_arith);
    }
    assert(bu * bv >= 0) by (nonlinear_arith)
        requires
            bu >= 0,
            bv >= 0,
    ;
}

/// Triangle inequality over bounds on lengths.
pub proof fn lemma_triangle(ux: int, uy: int, vx: int, vy: int, bu: int, bv: int)
    requires
        bu >= 0,
        bv >= 0,
        ux * ux + uy * uy <= bu * bu,
        vx * vx + vy * vy <= bv * bv,
    ensures
        (ux + vx) * (ux + vx) + (uy + vy) * (uy + vy) <= (bu + bv) * (bu + bv),
        ux * ux + uy * uy < bu * bu ==> (ux + vx) * (ux + vx) + (uy + vy) * (uy + vy) < (bu + bv)
            * (bu + bv),
{
    lemma_dot_bound(ux, uy, vx, vy, bu, bv);
    assert((ux + vx) * (ux + vx) + (uy + vy) * (uy + vy) == (ux * ux + uy * uy) + 2 * (ux * vx
        + uy * vy) + (vx * vx + vy * vy)) by (nonlinear_arith);
    assert((bu + bv) * (bu + bv) == bu * bu + 2 * (bu * bv) + bv * bv) by (nonlinear_arith);
}

/// A vector `v` with `m·v` within `2m` (per component) of `d·o`, where `m`
/// is the length of `o` rounded down, has a length within 3 of `d`, up to
/// the relative error `1/m` of `m` itself.
pub proof fn lemma_near_length(ox: int, oy: int, m: int, vx: int, vy: int, d: int)
    requires
        m >= 1,
        m * m <= ox * ox + oy * oy < (m + 1) * (m + 1),
        d >= 0,
        -2 * m < m * vx - d * ox < 2 * m,
        -2 * m < m * vy - d * oy < 2 * m,
    ensures
        m * m * (vx * vx + vy * vy) <= (d * (m + 1) + 3 * m) * (d * (m + 1) + 3 * m),
        d >= 3 ==> (d - 3) * (d - 3) <= vx * vx + vy * vy,
{
    let ex = m * vx - d * ox;
    let ey = m * vy - d * oy;
    assert(ex * ex + ey * ey <= (3 * m) * (3 * m)) by (nonlinear_arith)
        requires
            -2 * m < ex < 2 * m,
            -2 * m < ey < 2 * m,
            m >= 1,
    ;
    assert((d * ox) * (d * ox) + (d * oy) * (d * oy) == (d * d) * (ox * ox + oy * oy))
        by (nonlinear_arith);
    assert((d * d) * (ox * ox + oy * oy) <= (d * (m + 1)) * (d * (m + 1))) by (nonlinear_arith)
        requires
            ox * ox + oy * oy < (m + 1) * (m + 1),
            d >= 0,
    ;
    lemma_triangle(d * ox, d * oy, ex, ey, d * (m + 1), 3 * m);
    assert((m * vx) * (m * vx) + (m * vy) * (m * vy) == m * m * (vx * vx + vy * vy))
        by (nonlinear_arith);
    if d >= 3 {
        let lo = d * m - 3 * m;
        assert(lo >= 0) by (nonlinear_arith)
            requires
                d >= 3,
                m >= 1,
                lo == d * m - 3 * m,
        ;
        if m * m * (vx * vx + vy * vy) < lo * lo {
            assert((-ex) * (-ex) + (-ey) * (-ey) == ex * ex + ey * ey) by (nonlinear_arith);
            lemma_triangle(m * vx, m * vy, -ex, -ey, lo, 3 * m);
            assert(m * vx + -ex == d * ox && m * vy + -ey == d * oy);
            assert((d * d) * (ox * ox + oy * oy) >= (d * m) * (d * m)) by (nonlinear_arith)
                requires
                    ox * ox + oy * oy >= m * m,
                    d >= 0,
            ;
            assert(lo + 3 * m == d * m);
            assert(false);
        }
        assert((d - 3) * (d - 3) * (m * m) == lo * lo) by (nonlinear_arith)
            requires
                lo == d * m - 3 * m,
        ;
        assert((d - 3) * (d - 3) <= vx * vx + vy * vy) by (nonlinear_arith)
            requires
                (d - 3) * (d - 3) * (m * m) <= m * m * (vx * vx + vy * vy),
                m >= 1,
        ;
    }
}

} // verus!
