//! Properties of the integrator and of the collision resolver, proved over
//! their specifications.
use vstd::prelude::*;
use crate::circle::{
    connect_shift, connected, resolution_offset, dir_ok, force_ok, integrated, lemma_component_le_sqrt,
    lemma_dir_bounds, lemma_fine_scale, penetration, resolved, share, CircleView, DT_LIMIT,
    RADIUS_LIMIT,
};
use crate::vec2::{
    coord_ok, fine_len, is_isqrt, lemma_near_length, lemma_trunc_rem, norm_sq, point_ok,
    sqrt_floor, trunc_div, vadd, vsub, COORD_LIMIT, FINE,
};

verus! {

pub open spec fn abs(v: int) -> int {
    if v < 0 {
        -v
    } else {
        v
    }
}

/// A point far enough from the coordinate limits that a collision
/// correction never saturates.
pub open spec fn clear_of_limits(p: (int, int)) -> bool {
    abs(p.0) + 4 * RADIUS_LIMIT <= COORD_LIMIT && abs(p.1) + 4 * RADIUS_LIMIT <= COORD_LIMIT
}

/// Every non-negative integer has an integer square root.
pub proof fn lemma_sqrt_exists(n: int)
    requires
        n >= 0,
    ensures
        is_isqrt(n, sqrt_floor(n)),
    decreases n,
{
    if n == 0 {
        assert(is_isqrt(0, 0));
    } else {
        lemma_sqrt_exists(n - 1);
        let r = sqrt_floor(n - 1);
        if (r + 1) * (r + 1) <= n {
            assert((r + 1) * (r + 1) == n);
            assert(n < (r + 2) * (r + 2)) by (nonlinear_arith)
                requires
                    (r + 1) * (r + 1) == n,
                    r >= 0,
            ;
            assert(is_isqrt(n, r + 1));
        } else {
            assert(is_isqrt(n, r));
        }
    }
}

proof fn lemma_trunc_div_abs(x: int, s: int)
    requires
        s > 0,
    ensures
        abs(trunc_div(x, s)) == abs(x) / s,
        trunc_div(x, s) >= 0 <==> x >= 0 || abs(x) / s == 0,
{
    if x < 0 {
        assert((-x) / s >= 0) by (nonlinear_arith)
            requires
                -x > 0,
                s > 0,
        ;
    } else {
        assert(x / s >= 0) by (nonlinear_arith)
            requires
                x >= 0,
                s > 0,
        ;
    }
}

/// No component of the penetration vector is longer than the sum of the radii.
pub proof fn lemma_penetration_bound(a: CircleView, b: CircleView, d: (int, int))
    requires
        a.wf(),
        b.wf(),
        dir_ok(d),
    ensures
        penetration(a, b, d) matches Some(p) ==> abs(p.0) <= 2 * (a.radius + b.radius) && abs(
            p.1,
        ) <= 2 * (a.radius + b.radius),
{
    let res = vsub(b.position, a.position);
    let dsq = norm_sq(res);
    let r = a.radius + b.radius;
    assert(res.0 * res.0 >= 0 && res.1 * res.1 >= 0) by (nonlinear_arith);
    if dsq == 0 {
        if 1 < r * r {
            assert(r >= 1) by (nonlinear_arith)
                requires
                    1 < r * r,
                    r >= 0,
            ;
            lemma_dir_bounds(d);
            lemma_direction_share(d.0, r - 1);
            lemma_direction_share(d.1, r - 1);
        }
    } else if dsq < r * r {
        let l = fine_len(dsq);
        lemma_sqrt_exists(dsq * (FINE * FINE));
        lemma_fine_scale(res.0, res.1);
        lemma_component_le_sqrt(res.0 * FINE, res.1 * FINE, l);
        assert((res.1 * FINE) * (res.1 * FINE) + (res.0 * FINE) * (res.0 * FINE) == dsq * (FINE
            * FINE));
        lemma_component_le_sqrt(res.1 * FINE, res.0 * FINE, l);
        assert(l < r * FINE) by {
            assert(dsq * (65536 * 65536) < (r * 65536) * (r * 65536)) by (nonlinear_arith)
                requires
                    0 <= dsq < r * r,
            ;
            if l >= r * FINE {
                assert(l * l >= (r * 65536) * (r * 65536)) by (nonlinear_arith)
                    requires
                        l >= r * 65536,
                        r >= 0,
                ;
            }
        }
        assert(l >= 1) by {
            if l == 0 {
                assert((l + 1) * (l + 1) == 1);
                assert(dsq * (65536 * 65536) >= 1) by (nonlinear_arith)
                    requires
                        dsq >= 1,
                ;
            }
        }
        lemma_fine_fraction(res.0, r * FINE - l, l, r);
        lemma_fine_fraction(res.1, r * FINE - l, l, r);
    }
}

/// `|trunc(c·k / 1024)| ≤ 2k` when `|c| ≤ 2048`.
proof fn lemma_direction_share(c: int, k: int)
    requires
        -2048 <= c <= 2048,
        k >= 0,
    ensures
        abs(trunc_div(c * k, 1024)) <= 2 * k,
{
    lemma_trunc_div_abs(c * k, 1024);
    assert(abs(c * k) == abs(c) * k) by (nonlinear_arith)
        requires
            k >= 0,
    ;
    assert(abs(c) * k / 1024 <= 2 * k) by (nonlinear_arith)
        requires
            0 <= abs(c) <= 2048,
            k >= 0,
    ;
}

/// `|trunc(c·k / l)| ≤ r` when `|c|·FINE ≤ l` and `0 ≤ k ≤ r·FINE`.
proof fn lemma_fine_fraction(c: int, k: int, l: int, r: int)
    requires
        l >= 1,
        -l <= c * FINE <= l,
        0 <= k <= r * FINE,
    ensures
        abs(trunc_div(c * k, l)) <= r,
{
    lemma_trunc_div_abs(c * k, l);
    assert(abs(c * k) == abs(c) * k) by (nonlinear_arith)
        requires
            k >= 0,
    ;
    assert(abs(c) * 65536 <= l) by (nonlinear_arith)
        requires
            -l <= c * 65536 <= l,
    ;
    assert(abs(c) * k <= l * r) by (nonlinear_arith)
        requires
            abs(c) * 65536 <= l,
            0 <= k <= r * 65536,
            abs(c) >= 0,
    ;
    assert(abs(c) * k / l <= r) by (nonlinear_arith)
        requires
            abs(c) * k <= l * r,
            l >= 1,
    ;
}

/// A mass share of a vector is no longer than the vector.
proof fn lemma_share_bound(p: (int, int), m: int, split: int)
    requires
        0 < m < split,
    ensures
        abs(share(p, m, split).0) <= abs(p.0),
        abs(share(p, m, split).1) <= abs(p.1),
{
    lemma_share_abs(p.0, m, split);
    lemma_share_abs(p.1, m, split);
    assert(abs(p.0) * m / split <= abs(p.0)) by (nonlinear_arith)
        requires
            0 < m < split,
    ;
    assert(abs(p.1) * m / split <= abs(p.1)) by (nonlinear_arith)
        requires
            0 < m < split,
    ;
}

proof fn lemma_share_abs(x: int, m: int, split: int)
    requires
        0 < m < split,
    ensures
        abs(trunc_div(x * m, split)) == abs(x) * m / split,
        x >= 0 ==> trunc_div(x * m, split) >= 0,
        x <= 0 ==> trunc_div(x * m, split) <= 0,
{
    lemma_trunc_div_abs(x * m, split);
    assert(abs(x * m) == abs(x) * m) by (nonlinear_arith)
        requires
            m > 0,
    ;
    if x >= 0 {
        assert(x * m >= 0) by (nonlinear_arith)
            requires
                x >= 0,
                m > 0,
        ;
    } else {
        assert(x * m < 0) by (nonlinear_arith)
            requires
                x < 0,
                m > 0,
        ;
    }
}

/// Resolving a collision leaves the pair untouched when the circles do not
/// overlap, that is when the distance between the centres is at least the
/// sum of the radii.
pub proof fn law_separated_pair_unchanged(a: CircleView, b: CircleView, d: (int, int))
    requires
        a.wf(),
        b.wf(),
        norm_sq(vsub(b.position, a.position)) >= (a.radius + b.radius) * (a.radius + b.radius),
    ensures
        resolved(a, b, d) == (a, b),
{
    let r = a.radius + b.radius;
    if norm_sq(vsub(b.position, a.position)) == 0 {
        assert(r * r <= 0);
        assert(r == 0) by (nonlinear_arith)
            requires
                r * r <= 0,
                r >= 0,
        ;
    }
}

/// The corrections applied to `a` and `b`, away from the coordinate limits.
proof fn lemma_resolved_unclamped(a: CircleView, b: CircleView, d: (int, int))
    requires
        a.wf(),
        b.wf(),
        dir_ok(d),
        clear_of_limits(a.position),
        clear_of_limits(b.position),
    ensures
        penetration(a, b, d) matches Some(p) ==> resolved(a, b, d).0.position == vsub(
            a.position,
            share(p, b.mass, a.mass + b.mass),
        ) && resolved(a, b, d).1.position == vadd(b.position, share(p, a.mass, a.mass + b.mass)),
{
    lemma_penetration_bound(a, b, d);
    if let Some(p) = penetration(a, b, d) {
        lemma_share_bound(p, b.mass, a.mass + b.mass);
        lemma_share_bound(p, a.mass, a.mass + b.mass);
    }
}

/// For two particles of equal mass, resolving their collision keeps the
/// midpoint of their centres: the sum of the two positions is unchanged.
pub proof fn law_equal_mass_midpoint(a: CircleView, b: CircleView, d: (int, int))
    requires
        a.wf(),
        b.wf(),
        dir_ok(d),
        a.mass == b.mass,
        clear_of_limits(a.position),
        clear_of_limits(b.position),
    ensures
        vadd(resolved(a, b, d).0.position, resolved(a, b, d).1.position) == vadd(
            a.position,
            b.position,
        ),
{
    lemma_resolved_unclamped(a, b, d);
}

/// Resolving a collision moves each particle by the other's share of the
/// penetration, `⌊|p|·m_other / (m_a + m_b)⌋` per component and rounded
/// toward zero, so the lighter particle moves at least as far as the
/// heavier one and the two displacements stand (up to rounding) in the
/// ratio of the masses, heavier to lighter.
pub proof fn law_lighter_moves_further(a: CircleView, b: CircleView, d: (int, int))
    requires
        a.wf(),
        b.wf(),
        dir_ok(d),
        a.mass <= b.mass,
        clear_of_limits(a.position),
        clear_of_limits(b.position),
    ensures
        ({
            let da = vsub(resolved(a, b, d).0.position, a.position);
            let db = vsub(resolved(a, b, d).1.position, b.position);
            let split = a.mass + b.mass;
            &&& abs(da.0) >= abs(db.0)
            &&& abs(da.1) >= abs(db.1)
            &&& penetration(a, b, d) matches Some(p) ==> {
                &&& abs(da.0) == abs(p.0) * b.mass / split
                &&& abs(da.1) == abs(p.1) * b.mass / split
                &&& abs(db.0) == abs(p.0) * a.mass / split
                &&& abs(db.1) == abs(p.1) * a.mass / split
            }
            &&& penetration(a, b, d) is None ==> da == (0int, 0int) && db == (0int, 0int)
        }),
{
    lemma_resolved_unclamped(a, b, d);
    let split = a.mass + b.mass;
    if let Some(p) = penetration(a, b, d) {
        lemma_share_abs(p.0, b.mass, split);
        lemma_share_abs(p.1, b.mass, split);
        lemma_share_abs(p.0, a.mass, split);
        lemma_share_abs(p.1, a.mass, split);
        assert(abs(p.0) * a.mass / split <= abs(p.0) * b.mass / split) by (nonlinear_arith)
            requires
                0 < a.mass <= b.mass,
                split > 0,
        ;
        assert(abs(p.1) * a.mass / split <= abs(p.1) * b.mass / split) by (nonlinear_arith)
            requires
                0 < a.mass <= b.mass,
                split > 0,
        ;
    }
}

/// Two particles with coincident centres and radii summing to at least five
/// units always end up apart: the substituted direction is never zero. With
/// smaller radii each mass share of the correction may round to zero and
/// the pair may stay coincident.
pub proof fn law_coincident_pair_separates(a: CircleView, b: CircleView, d: (int, int))
    requires
        a.wf(),
        b.wf(),
        dir_ok(d),
        a.position == b.position,
        a.radius + b.radius >= 5,
        clear_of_limits(a.position),
    ensures
        resolved(a, b, d).0.position != resolved(a, b, d).1.position,
{
    let r = a.radius + b.radius;
    assert(1 < r * r) by (nonlinear_arith)
        requires
            r >= 5,
    ;
    lemma_resolved_unclamped(a, b, d);
    let p = penetration(a, b, d)->Some_0;
    let split = a.mass + b.mass;
    lemma_dir_bounds(d);
    assert(2 * d.0 >= 1024 || 2 * d.0 <= -1024 || 2 * d.1 >= 1024 || 2 * d.1 <= -1024) by {
        if -512 < d.0 < 512 && -512 < d.1 < 512 {
            assert(norm_sq(d) < 1021 * 1021) by (nonlinear_arith)
                requires
                    -512 < d.0 < 512,
                    -512 < d.1 < 512,
            ;
        }
    }
    if 2 * d.0 >= 1024 || 2 * d.0 <= -1024 {
        lemma_major_separates(d.0, r, a.mass, b.mass);
        lemma_share_abs(p.0, a.mass, split);
        lemma_share_abs(p.0, b.mass, split);
    } else {
        lemma_major_separates(d.1, r, a.mass, b.mass);
        lemma_share_abs(p.1, a.mass, split);
        lemma_share_abs(p.1, b.mass, split);
    }
}

proof fn lemma_major_separates(c: int, r: int, ma: int, mb: int)
    requires
        2 * c >= 1024 || 2 * c <= -1024,
        r >= 5,
        ma >= 1,
        mb >= 1,
    ensures
        abs(trunc_div(c * (r - 1), 1024)) >= 2,
        abs(trunc_div(c * (r - 1), 1024)) * ma / (ma + mb) >= 1 || abs(
            trunc_div(c * (r - 1), 1024),
        ) * mb / (ma + mb) >= 1,
{
    lemma_trunc_div_abs(c * (r - 1), 1024);
    assert(abs(c * (r - 1)) == abs(c) * (r - 1)) by (nonlinear_arith)
        requires
            r >= 5,
    ;
    assert(abs(c) * (r - 1) >= 2048) by (nonlinear_arith)
        requires
            abs(c) >= 512,
            r >= 5,
    ;
    let q = abs(trunc_div(c * (r - 1), 1024));
    assert(q >= 2);
    if ma >= mb {
        assert(q * ma / (ma + mb) >= 1) by (nonlinear_arith)
            requires
                q >= 2,
                ma >= mb,
                mb >= 1,
        ;
    } else {
        assert(q * mb / (ma + mb) >= 1) by (nonlinear_arith)
            requires
                q >= 2,
                mb > ma,
                ma >= 1,
        ;
    }
}

/// The particle after `n` integration steps of length `dt`, the force being
/// set to `f` before each step.
pub open spec fn driven(p: CircleView, f: (int, int), dt: int, n: nat) -> CircleView
    decreases n,
{
    if n == 0 {
        p
    } else {
        integrated(driven(p, f, dt, (n - 1) as nat).with_force(f), dt)
    }
}

/// The triangular number `n(n+1)/2`.
pub open spec fn tri(n: nat) -> int
    decreases n,
{
    if n == 0 {
        0
    } else {
        tri((n - 1) as nat) + n
    }
}

pub proof fn lemma_tri(n: nat)
    ensures
        2 * tri(n) == n * (n + 1),
    decreases n,
{
    if n > 0 {
        let m = (n - 1) as nat;
        lemma_tri(m);
        assert(tri(n) == tri(m) + n);
        assert(2 * tri(m) == m * (m + 1));
        assert(m * (m + 1) + 2 * n == n * (n + 1)) by (nonlinear_arith)
            requires
                m + 1 == n,
        ;
        assert(2 * tri(n) == n * (n + 1));
    } else {
        assert(tri(n) == 0);
        assert(n * (n + 1) == 0) by (nonlinear_arith)
            requires
                n == 0,
        ;
    }
}

/// A particle at rest with no force on it stays where it is, however many
/// steps are taken.
pub proof fn law_rest_is_fixed_point(p: CircleView, dt: int, n: nat)
    requires
        p.wf(),
        p.velocity() == (0int, 0int),
        0 < dt <= DT_LIMIT,
    ensures
        driven(p, (0, 0), dt, n).position == p.position,
        driven(p, (0, 0), dt, n).prev_position == p.position,
        driven(p, (0, 0), dt, n).mass == p.mass,
    decreases n,
{
    if n > 0 {
        law_rest_is_fixed_point(p, dt, (n - 1) as nat);
        let q = driven(p, (0, 0), dt, (n - 1) as nat);
        assert(0int * dt * dt == 0) by (nonlinear_arith);
        assert(0int / q.mass == 0) by (nonlinear_arith)
            requires
                q.mass >= 1,
        ;
    }
}

/// The per-step velocity gain of constant force `f` on mass `m` over `dt`,
/// one component: `(f·dt²)/m` rounded toward zero.
pub open spec fn kick(f: int, mass: int, dt: int) -> int {
    trunc_div(f * dt * dt, mass)
}

proof fn lemma_between(x0: int, q: int, t: int, tn: int)
    requires
        0 <= t <= tn,
        coord_ok(x0),
        coord_ok(x0 + q * tn),
    ensures
        coord_ok(x0 + q * t),
{
    if q >= 0 {
        assert(0 <= q * t <= q * tn) by (nonlinear_arith)
            requires
                q >= 0,
                0 <= t <= tn,
        ;
    } else {
        assert(q * tn <= q * t <= 0) by (nonlinear_arith)
            requires
                q < 0,
                0 <= t <= tn,
        ;
    }
}

proof fn lemma_tri_mono(k: nat, n: nat)
    requires
        k <= n,
    ensures
        0 <= tri(k) <= tri(n),
    decreases n,
{
    if k < n {
        lemma_tri_mono(k, (n - 1) as nat);
    } else if n > 0 {
        lemma_tri_mono(0, (n - 1) as nat);
    }
}

proof fn lemma_driven_constant(p: CircleView, f: (int, int), dt: int, k: nat, n: nat)
    requires
        p.wf(),
        p.velocity() == (0int, 0int),
        force_ok(f),
        0 < dt <= DT_LIMIT,
        k <= n,
        coord_ok(p.position.0 + kick(f.0, p.mass, dt) * tri(n)),
        coord_ok(p.position.1 + kick(f.1, p.mass, dt) * tri(n)),
    ensures
        driven(p, f, dt, k).mass == p.mass,
        driven(p, f, dt, k).position == (
            p.position.0 + kick(f.0, p.mass, dt) * tri(k),
            p.position.1 + kick(f.1, p.mass, dt) * tri(k),
        ),
        k > 0 ==> driven(p, f, dt, k).prev_position == (
            p.position.0 + kick(f.0, p.mass, dt) * tri((k - 1) as nat),
            p.position.1 + kick(f.1, p.mass, dt) * tri((k - 1) as nat),
        ),
        k == 0 ==> driven(p, f, dt, k).prev_position == p.position,
    decreases k,
{
    if k > 0 {
        let j = (k - 1) as nat;
        lemma_driven_constant(p, f, dt, j, n);
        let qx = kick(f.0, p.mass, dt);
        let qy = kick(f.1, p.mass, dt);
        lemma_tri_mono(k, n);
        lemma_between(p.position.0, qx, tri(k), tri(n));
        lemma_between(p.position.1, qy, tri(k), tri(n));
        assert(tri(k) == tri(j) + k);
        if j == 0 {
            assert(tri(0) == 0);
            assert(tri(1) == 1);
            assert(qx * tri(1) == qx && qy * tri(1) == qy && qx * tri(0) == 0 && qy * tri(0) == 0)
                by (nonlinear_arith)
                requires
                    tri(1) == 1,
                    tri(0) == 0,
            ;
        } else {
            let jm = (j - 1) as nat;
            assert(tri(k) == tri(j) + k);
            assert(tri(j) == tri(jm) + j);
            assert(2 * (qx * tri(j)) - qx * tri(jm) + qx == qx * tri(k)) by (nonlinear_arith)
                requires
                    tri(k) == tri(j) + k,
                    tri(j) == tri(jm) + j,
                    k == j + 1,
            ;
            assert(2 * (qy * tri(j)) - qy * tri(jm) + qy == qy * tri(k)) by (nonlinear_arith)
                requires
                    tri(k) == tri(j) + k,
                    tri(j) == tri(jm) + j,
                    k == j + 1,
            ;
        }
    }
}

/// A particle starting at rest and pushed by the same force `f` before each
/// of `n` steps of length `dt` moves by `kick·n(n+1)/2`, where the kick
/// `(f·dt²)/m` is the velocity gained per step: the discrete counterpart of
/// `½·(f/m)·(n·dt)²`, from which it differs by `kick·n/2`. This holds while
/// the end point lies within the coordinate limits.
pub proof fn law_constant_force_displacement(p: CircleView, f: (int, int), dt: int, n: nat)
    requires
        p.wf(),
        p.velocity() == (0int, 0int),
        force_ok(f),
        0 < dt <= DT_LIMIT,
        coord_ok(p.position.0 + kick(f.0, p.mass, dt) * tri(n)),
        coord_ok(p.position.1 + kick(f.1, p.mass, dt) * tri(n)),
    ensures
        vsub(driven(p, f, dt, n).position, p.position) == (
            kick(f.0, p.mass, dt) * tri(n),
            kick(f.1, p.mass, dt) * tri(n),
        ),
        2 * tri(n) == n * (n + 1),
{
    lemma_driven_constant(p, f, dt, n, n);
    lemma_tri(n);
}


/// `FINE` times the length of a non-zero vector, rounded down, is at
/// least `FINE` and brackets the scaled vector's length.
proof fn lemma_fine_len(x: int, y: int)
    requires
        x != 0 || y != 0,
    ensures
        fine_len(x * x + y * y) >= FINE,
        ({
            let l = fine_len(x * x + y * y);
            l * l <= (x * FINE) * (x * FINE) + (y * FINE) * (y * FINE) < (l + 1) * (l + 1)
        }),
{
    let n = x * x + y * y;
    assert(n >= 1) by (nonlinear_arith)
        requires
            x != 0 || y != 0,
            n == x * x + y * y,
    ;
    lemma_sqrt_exists(n * (FINE * FINE));
    lemma_fine_scale(x, y);
    let l = fine_len(n);
    if l < FINE {
        assert((l + 1) * (l + 1) <= 65536 * 65536) by (nonlinear_arith)
            requires
                0 <= l < 65536,
        ;
        assert(n * (65536 * 65536) >= 65536 * 65536) by (nonlinear_arith)
            requires
                n >= 1,
        ;
    }
}

/// `connect(a, b, distance)` leaves the centres `distance` apart, to within
/// three units and the relative error `1/l ≤ 1/FINE` of the length taken:
/// with `l` the old separation in steps of `1/FINE`, the new separation is
/// at most `distance·(l+1)/l + 3` and, when `distance ≥ 3`, at least
/// `distance − 3`. This holds whenever the centres differ and neither
/// particle is pushed past the coordinate limits.
pub proof fn law_connect_reaches_distance(a: CircleView, b: CircleView, distance: int)
    requires
        a.wf(),
        b.wf(),
        a.position != b.position,
        distance >= 0,
        connect_shift(a, b, distance) matches Some(s) ==> point_ok(vsub(a.position, s))
            && point_ok(vadd(b.position, s)),
    ensures
        ({
            let l = fine_len(norm_sq(vsub(b.position, a.position)));
            let o2 = vsub(connected(a, b, distance).1.position, connected(a, b, distance).0.position);
            &&& l >= FINE
            &&& l * l * norm_sq(o2) <= (distance * (l + 1) + 3 * l) * (distance * (l + 1) + 3 * l)
            &&& distance >= 3 ==> (distance - 3) * (distance - 3) <= norm_sq(o2)
        }),
{
    let o = vsub(b.position, a.position);
    lemma_fine_len(o.0, o.1);
    assert(norm_sq(o) != 0) by {
        assert(o.0 * o.0 >= 0 && o.1 * o.1 >= 0) by (nonlinear_arith);
        if o.0 != 0 {
            assert(o.0 * o.0 > 0) by (nonlinear_arith)
                requires
                    o.0 != 0,
            ;
        } else {
            assert(o.1 * o.1 > 0) by (nonlinear_arith)
                requires
                    o.1 != 0,
            ;
        }
    }
    let l = fine_len(norm_sq(o));
    let k = distance * FINE - l;
    let sx = trunc_div(o.0 * k, 2 * l);
    let sy = trunc_div(o.1 * k, 2 * l);
    lemma_trunc_rem(o.0 * k, 2 * l);
    lemma_trunc_rem(o.1 * k, 2 * l);
    let o2 = vsub(connected(a, b, distance).1.position, connected(a, b, distance).0.position);
    assert(o2 == (o.0 + 2 * sx, o.1 + 2 * sy));
    assert(l * o2.0 - distance * (o.0 * FINE) == 2 * l * sx - o.0 * k) by (nonlinear_arith)
        requires
            o2.0 == o.0 + 2 * sx,
            k == distance * 65536 - l,
    ;
    assert(l * o2.1 - distance * (o.1 * FINE) == 2 * l * sy - o.1 * k) by (nonlinear_arith)
        requires
            o2.1 == o.1 + 2 * sy,
            k == distance * 65536 - l,
    ;
    lemma_near_length(o.0 * FINE, o.1 * FINE, l, o2.0, o2.1, distance);
}

/// The two mass shares of `p` add up to `p`, give or take one unit lost to
/// rounding.
proof fn lemma_share_sum(p: int, ma: int, mb: int)
    requires
        ma >= 1,
        mb >= 1,
    ensures
        -1 <= p - trunc_div(p * ma, ma + mb) - trunc_div(p * mb, ma + mb) <= 1,
{
    let s = ma + mb;
    let q = abs(p);
    let q1 = (q * ma) / s;
    let q2 = (q * mb) / s;
    vstd::arithmetic::div_mod::lemma_fundamental_div_mod(q * ma, s);
    vstd::arithmetic::div_mod::lemma_mod_bound(q * ma, s);
    vstd::arithmetic::div_mod::lemma_fundamental_div_mod(q * mb, s);
    vstd::arithmetic::div_mod::lemma_mod_bound(q * mb, s);
    assert(q * ma + q * mb == q * s) by (nonlinear_arith)
        requires
            s == ma + mb,
    ;
    assert(q1 + q2 <= q < q1 + q2 + 2) by (nonlinear_arith)
        requires
            s * q1 <= q * ma < s * q1 + s,
            s * q2 <= q * mb < s * q2 + s,
            q * ma + q * mb == q * s,
            s >= 2,
    ;
    assert(q * ma >= 0 && q * mb >= 0) by (nonlinear_arith)
        requires
            q >= 0,
            ma >= 1,
            mb >= 1,
    ;
    if p < 0 {
        assert(-(p * ma) == q * ma && -(p * mb) == q * mb) by (nonlinear_arith)
            requires
                q == -p,
        ;
        if p * ma == 0 {
            assert(p * ma < 0) by (nonlinear_arith)
                requires
                    p < 0,
                    ma >= 1,
            ;
        }
        if p * mb == 0 {
            assert(p * mb < 0) by (nonlinear_arith)
                requires
                    p < 0,
                    mb >= 1,
            ;
        }
        assert(p * ma < 0 && p * mb < 0) by (nonlinear_arith)
            requires
                p < 0,
                ma >= 1,
                mb >= 1,
        ;
    }
}

/// Resolving an overlap of two circles with distinct centres leaves them
/// touching, to within three units and the relative error `1/l ≤ 1/FINE`
/// of the length taken: with `R` the sum of the radii and `l` the old
/// separation in steps of `1/FINE`, the new separation is at most
/// `R·(l+1)/l + 3` and, when `R ≥ 3`, at least `R − 3`. This holds away
/// from the coordinate limits.
pub proof fn law_collision_reaches_contact(a: CircleView, b: CircleView, d: (int, int))
    requires
        a.wf(),
        b.wf(),
        dir_ok(d),
        a.position != b.position,
        norm_sq(vsub(b.position, a.position)) < (a.radius + b.radius) * (a.radius + b.radius),
        clear_of_limits(a.position),
        clear_of_limits(b.position),
    ensures
        ({
            let r = a.radius + b.radius;
            let l = fine_len(norm_sq(vsub(b.position, a.position)));
            let s2 = vsub(resolved(a, b, d).1.position, resolved(a, b, d).0.position);
            &&& l >= FINE
            &&& l * l * norm_sq(s2) <= (r * (l + 1) + 3 * l) * (r * (l + 1) + 3 * l)
            &&& r >= 3 ==> (r - 3) * (r - 3) <= norm_sq(s2)
        }),
{
    let res = vsub(b.position, a.position);
    let r = a.radius + b.radius;
    lemma_fine_len(res.0, res.1);
    assert(norm_sq(res) != 0) by {
        assert(res.0 * res.0 >= 0 && res.1 * res.1 >= 0) by (nonlinear_arith);
        if res.0 != 0 {
            assert(res.0 * res.0 > 0) by (nonlinear_arith)
                requires
                    res.0 != 0,
            ;
        } else {
            assert(res.1 * res.1 > 0) by (nonlinear_arith)
                requires
                    res.1 != 0,
            ;
        }
    }
    let l = fine_len(norm_sq(res));
    let k = r * FINE - l;
    lemma_resolved_unclamped(a, b, d);
    let p = penetration(a, b, d)->Some_0;
    assert(p == (trunc_div(res.0 * k, l), trunc_div(res.1 * k, l)));
    lemma_trunc_rem(res.0 * k, l);
    lemma_trunc_rem(res.1 * k, l);
    lemma_share_sum(p.0, a.mass, b.mass);
    lemma_share_sum(p.1, a.mass, b.mass);
    let split = a.mass + b.mass;
    let s2 = vsub(resolved(a, b, d).1.position, resolved(a, b, d).0.position);
    let dx = p.0 - trunc_div(p.0 * a.mass, split) - trunc_div(p.0 * b.mass, split);
    let dy = p.1 - trunc_div(p.1 * a.mass, split) - trunc_div(p.1 * b.mass, split);
    assert(s2 == (res.0 + p.0 - dx, res.1 + p.1 - dy));
    assert(l * s2.0 - r * (res.0 * FINE) == (l * p.0 - res.0 * k) - l * dx) by (nonlinear_arith)
        requires
            s2.0 == res.0 + p.0 - dx,
            k == r * 65536 - l,
    ;
    assert(l * s2.1 - r * (res.1 * FINE) == (l * p.1 - res.1 * k) - l * dy) by (nonlinear_arith)
        requires
            s2.1 == res.1 + p.1 - dy,
            k == r * 65536 - l,
    ;
    assert(-l <= l * dx <= l && -l <= l * dy <= l) by (nonlinear_arith)
        requires
            -1 <= dx <= 1,
            -1 <= dy <= 1,
            l >= 1,
    ;
    lemma_near_length(res.0 * FINE, res.1 * FINE, l, s2.0, s2.1, r);
}

/// The offset from a point other than the centre carries it onto the rim:
/// `point + offset` lies `radius` from the centre, to within three units
/// and the relative error `1/l ≤ 1/FINE` of the length taken, `l` being
/// the distance of `point` in steps of `1/FINE`.
pub proof fn law_offset_reaches_rim(p: CircleView, point: (int, int))
    requires
        p.wf(),
        point != p.position,
    ensures
        ({
            let l = fine_len(norm_sq(vsub(point, p.position)));
            let t = vsub(vadd(point, resolution_offset(p, point)), p.position);
            &&& l >= FINE
            &&& l * l * norm_sq(t) <= (p.radius * (l + 1) + 3 * l) * (p.radius * (l + 1) + 3 * l)
            &&& p.radius >= 3 ==> (p.radius - 3) * (p.radius - 3) <= norm_sq(t)
        }),
{
    let o = vsub(point, p.position);
    lemma_fine_len(o.0, o.1);
    assert(norm_sq(o) != 0) by {
        assert(o.0 * o.0 >= 0 && o.1 * o.1 >= 0) by (nonlinear_arith);
        if o.0 != 0 {
            assert(o.0 * o.0 > 0) by (nonlinear_arith)
                requires
                    o.0 != 0,
            ;
        } else {
            assert(o.1 * o.1 > 0) by (nonlinear_arith)
                requires
                    o.1 != 0,
            ;
        }
    }
    let l = fine_len(norm_sq(o));
    let r = p.radius;
    lemma_trunc_rem(o.0 * FINE * r, l);
    lemma_trunc_rem(o.1 * FINE * r, l);
    let t = vsub(vadd(point, resolution_offset(p, point)), p.position);
    assert(t == (trunc_div(o.0 * FINE * r, l), trunc_div(o.1 * FINE * r, l)));
    assert(o.0 * FINE * r == r * (o.0 * FINE) && o.1 * FINE * r == r * (o.1 * FINE))
        by (nonlinear_arith);
    lemma_near_length(o.0 * FINE, o.1 * FINE, l, t.0, t.1, r);
}

} // verus!
