//! A circular body integrated with position Verlet.
//!
//! Velocity is not stored: it is the difference between the current and the
//! previous position. Collisions and distance constraints correct positions
//! directly, and the next integration step turns that correction into motion.
use vstd::prelude::*;
use rand::Rng;
use crate::vec2::{
    clamp_coord, clamp_point, clamp_to_coord, coord_ok, div_trunc, fine_len, fine_sqrt, is_isqrt,
    lemma_near_length, lemma_trunc_rem, norm_sq, point_ok, trunc_div, vadd, vsub, Vec2,
    COORD_LIMIT, FINE,
};

verus! {

// The limits below bound the fixed-point range: with them every product the
// physics forms fits in 128-bit arithmetic. They are machine limits, not
// physical ones.

/// Largest mass a particle may have.
pub const MASS_LIMIT: i64 = 1048576;

/// Largest radius a particle may have.
pub const RADIUS_LIMIT: i64 = 16777216;

/// Largest magnitude of an accumulated force component.
pub const FORCE_LIMIT: i64 = 1099511627776;

/// Largest integration step.
pub const DT_LIMIT: i64 = 65536;

/// Length of the direction used to separate two coincident particles: a
/// direction `d` stands for the unit vector `d / DIR_SCALE`.
pub const DIR_SCALE: i64 = 1024;

/// What a particle holds, as mathematical integers.
pub struct CircleView {
    pub position: (int, int),
    pub prev_position: (int, int),
    pub mass: int,
    pub radius: int,
    pub force: (int, int),
}

pub open spec fn force_ok(f: (int, int)) -> bool {
    -FORCE_LIMIT <= f.0 <= FORCE_LIMIT && -FORCE_LIMIT <= f.1 <= FORCE_LIMIT
}

pub open spec fn clamp_force_coord(v: int) -> int {
    if v < -FORCE_LIMIT {
        -FORCE_LIMIT as int
    } else if v > FORCE_LIMIT {
        FORCE_LIMIT as int
    } else {
        v
    }
}

/// A separation direction: its length is `DIR_SCALE` up to rounding
/// (between 1021 and 1028), so it is never the zero vector.
pub open spec fn dir_ok(d: (int, int)) -> bool {
    1021 * 1021 <= norm_sq(d) <= 1028 * 1028
}

/// The direction of `(rx, ry)` scaled to length `DIR_SCALE`, each component
/// rounded toward zero; `(DIR_SCALE, 0)` for the zero vector.
pub open spec fn unit_dir(rx: int, ry: int) -> (int, int) {
    if rx == 0 && ry == 0 {
        (DIR_SCALE as int, 0)
    } else {
        let l = fine_len(rx * rx + ry * ry);
        (trunc_div(rx * FINE * DIR_SCALE, l), trunc_div(ry * FINE * DIR_SCALE, l))
    }
}

impl CircleView {
    pub open spec fn wf(self) -> bool {
        &&& point_ok(self.position)
        &&& point_ok(self.prev_position)
        &&& 1 <= self.mass <= MASS_LIMIT
        &&& 0 <= self.radius <= RADIUS_LIMIT
        &&& force_ok(self.force)
    }

    pub open spec fn velocity(self) -> (int, int) {
        vsub(self.position, self.prev_position)
    }

    /// The same particle moved to `q`, its previous position untouched.
    pub open spec fn at(self, q: (int, int)) -> CircleView {
        CircleView {
            position: q,
            prev_position: self.prev_position,
            mass: self.mass,
            radius: self.radius,
            force: self.force,
        }
    }

    pub open spec fn with_prev(self, q: (int, int)) -> CircleView {
        CircleView {
            position: self.position,
            prev_position: q,
            mass: self.mass,
            radius: self.radius,
            force: self.force,
        }
    }

    pub open spec fn with_force(self, f: (int, int)) -> CircleView {
        CircleView {
            position: self.position,
            prev_position: self.prev_position,
            mass: self.mass,
            radius: self.radius,
            force: f,
        }
    }
}

/// A particle at rest at `position`, with no force applied.
pub open spec fn fresh(position: (int, int), radius: int, mass: int) -> CircleView {
    CircleView { position, prev_position: position, mass, radius, force: (0, 0) }
}

/// One Verlet coordinate step: `2·x − x_prev + (f·dt²)/m`, saturated.
pub open spec fn verlet_coord(x: int, prev: int, f: int, mass: int, dt: int) -> int {
    clamp_coord(2 * x - prev + trunc_div(f * dt * dt, mass))
}

/// The particle after one integration step of length `dt`.
pub open spec fn integrated(p: CircleView, dt: int) -> CircleView {
    CircleView {
        position: (
            verlet_coord(p.position.0, p.prev_position.0, p.force.0, p.mass, dt),
            verlet_coord(p.position.1, p.prev_position.1, p.force.1, p.mass, dt),
        ),
        prev_position: p.position,
        mass: p.mass,
        radius: p.radius,
        force: (0, 0),
    }
}

/// The vector that would push `b` away from `a` until the circles touch, or
/// `None` when they do not overlap. The distance is taken in steps of
/// `1 / FINE`. Coincident centres use `dir` as the direction and count as
/// one unit apart.
pub open spec fn penetration(a: CircleView, b: CircleView, dir: (int, int)) -> Option<
    (int, int),
> {
    let res = vsub(b.position, a.position);
    let dsq = norm_sq(res);
    let r = a.radius + b.radius;
    if dsq == 0 {
        if 1 < r * r {
            Some(
                (trunc_div(dir.0 * (r - 1), DIR_SCALE as int), trunc_div(dir.1 * (r - 1), DIR_SCALE as int)),
            )
        } else {
            None
        }
    } else if dsq < r * r {
        let l = fine_len(dsq);
        Some((trunc_div(res.0 * (r * FINE - l), l), trunc_div(res.1 * (r * FINE - l), l)))
    } else {
        None
    }
}

/// The share `m / split` of the vector `p`, each component rounded toward zero.
pub open spec fn share(p: (int, int), m: int, split: int) -> (int, int) {
    (trunc_div(p.0 * m, split), trunc_div(p.1 * m, split))
}

/// Both particles after their overlap is resolved: each moves along the
/// penetration vector by the other's share of the total mass.
pub open spec fn resolved(a: CircleView, b: CircleView, dir: (int, int)) -> (
    CircleView,
    CircleView,
) {
    match penetration(a, b, dir) {
        None => (a, b),
        Some(p) => {
            let split = a.mass + b.mass;
            (
                a.at(clamp_point(vsub(a.position, share(p, b.mass, split)))),
                b.at(clamp_point(vadd(b.position, share(p, a.mass, split)))),
            )
        },
    }
}

/// Half the gap between the current separation and `distance`, along the
/// line from `a` to `b`; zero-length separations give `None`.
pub open spec fn connect_shift(a: CircleView, b: CircleView, distance: int) -> Option<
    (int, int),
> {
    let off = vsub(b.position, a.position);
    if norm_sq(off) == 0 {
        None
    } else {
        let l = fine_len(norm_sq(off));
        Some(
            (
                trunc_div(off.0 * (distance * FINE - l), 2 * l),
                trunc_div(off.1 * (distance * FINE - l), 2 * l),
            ),
        )
    }
}

pub open spec fn connected(a: CircleView, b: CircleView, distance: int) -> (
    CircleView,
    CircleView,
) {
    match connect_shift(a, b, distance) {
        None => (a, b),
        Some(s) => (
            a.at(clamp_point(vsub(a.position, s))),
            b.at(clamp_point(vadd(b.position, s))),
        ),
    }
}

/// The offset from `point` to the nearest point of the circle's rim, or zero
/// when `point` is the centre.
pub open spec fn resolution_offset(p: CircleView, point: (int, int)) -> (int, int) {
    let off = vsub(point, p.position);
    if norm_sq(off) == 0 {
        (0, 0)
    } else {
        let l = fine_len(norm_sq(off));
        (trunc_div(off.0 * FINE * p.radius, l) - off.0, trunc_div(off.1 * FINE * p.radius, l) - off.1)
    }
}

/// A component of a vector is no longer than the vector.
pub proof fn lemma_component_le_sqrt(c: int, o: int, r: int)
    requires
        is_isqrt(c * c + o * o, r),
    ensures
        -r <= c <= r,
{
    assert(o * o >= 0) by (nonlinear_arith);
    if c > r {
        assert(c * c >= (r + 1) * (r + 1)) by (nonlinear_arith)
            requires
                c >= r + 1,
                r >= 0,
        ;
    } else if c < -r {
        assert(c * c >= (r + 1) * (r + 1)) by (nonlinear_arith)
            requires
                -c >= r + 1,
                r >= 0,
        ;
    }
}

/// Relies on rand::Rng::gen_range over rand::thread_rng: a value drawn from
/// the half-open range `[low, high)`, which must not be empty.
#[verifier::external_body]
fn random_in(low: i64, high: i64) -> (r: i64)
    requires
        low < high,
    ensures
        low <= r < high,
{

    rand::thread_rng().gen_range(low..high)
}

/// The square of a component is at most the squared length.
pub proof fn lemma_component_sq(c: int, o: int)
    ensures
        0 <= c * c <= c * c + o * o,
{
    assert(c * c >= 0 && o * o >= 0) by (nonlinear_arith);
}

/// Every separation direction has components within `2·DIR_SCALE`.
pub proof fn lemma_dir_bounds(d: (int, int))
    requires
        dir_ok(d),
    ensures
        -2048 <= d.0 <= 2048,
        -2048 <= d.1 <= 2048,
{
    lemma_component_sq(d.0, d.1);
    lemma_component_sq(d.1, d.0);
    assert(-2048 <= d.0 <= 2048) by (nonlinear_arith)
        requires
            d.0 * d.0 <= 1028 * 1028,
    ;
    assert(-2048 <= d.1 <= 2048) by (nonlinear_arith)
        requires
            d.1 * d.1 <= 1028 * 1028,
    ;
}

/// The squared length of `(F·x, F·y)` is `F²` times that of `(x, y)`.
pub proof fn lemma_fine_scale(x: int, y: int)
    ensures
        (x * FINE) * (x * FINE) + (y * FINE) * (y * FINE) == (x * x + y * y) * (FINE * FINE),
{
    assert((x * 65536) * (x * 65536) + (y * 65536) * (y * 65536) == (x * x + y * y) * (65536
        * 65536)) by (nonlinear_arith);
}

/// The direction of `(rx, ry)`, scaled to length `DIR_SCALE`.
pub fn direction_from(rx: i64, ry: i64) -> (r: Vec2)
    requires
        -DIR_SCALE <= rx < DIR_SCALE,
        -DIR_SCALE <= ry < DIR_SCALE,
    ensures
        r@ == unit_dir(rx as int, ry as int),
        dir_ok(r@),
{
    if rx == 0 && ry == 0 {
        return Vec2 { x: DIR_SCALE, y: 0 };
    }
    let wx = rx as i128;
    let wy = ry as i128;
    assert(0 <= wx * wx <= 1048576 && 0 <= wy * wy <= 1048576) by (nonlinear_arith)
        requires
            -1024 <= wx <= 1024,
            -1024 <= wy <= 1024,
    ;
    let n = wx * wx + wy * wy;
    assert(n >= 1) by (nonlinear_arith)
        requires
            wx != 0 || wy != 0,
            n == wx * wx + wy * wy,
    ;
    let l = fine_sqrt(n as u128) as i128;
    let dx = div_trunc(wx * 65536 * 1024, l);
    let dy = div_trunc(wy * 65536 * 1024, l);
    proof {
        let (x, y) = (wx as int, wy as int);
        lemma_fine_scale(x, y);
        lemma_trunc_rem(x * FINE * DIR_SCALE, l as int);
        lemma_trunc_rem(y * FINE * DIR_SCALE, l as int);
        assert(x * FINE * DIR_SCALE == 1024 * (x * FINE)) by (nonlinear_arith);
        assert(y * FINE * DIR_SCALE == 1024 * (y * FINE)) by (nonlinear_arith);
        lemma_near_length(x * FINE, y * FINE, l as int, dx as int, dy as int, 1024);
        let (vx, vy) = (dx as int, dy as int);
        let m = l as int;
        assert((vx * vx + vy * vy) <= 1028 * 1028) by (nonlinear_arith)
            requires
                m * m * (vx * vx + vy * vy) <= (1024 * (m + 1) + 3 * m) * (1024 * (m + 1) + 3
                    * m),
                m >= 65536,
        ;
    }
    Vec2 { x: dx as i64, y: dy as i64 }
}

/// A random direction of length `DIR_SCALE` up to rounding.
pub fn random_direction() -> (r: Vec2)
    ensures
        exists|rx: int, ry: int|
            -DIR_SCALE <= rx < DIR_SCALE && -DIR_SCALE <= ry < DIR_SCALE && r@ == #[trigger] unit_dir(
                rx,
                ry,
            ),
        dir_ok(r@),
{
    let rx = random_in(-DIR_SCALE, DIR_SCALE);
    let ry = random_in(-DIR_SCALE, DIR_SCALE);
    let r = direction_from(rx, ry);
    assert(r@ == unit_dir(rx as int, ry as int));
    r
}

/// A circular body.
#[derive(Clone, Copy, Debug)]
pub struct Circle {
    position: Vec2,
    prev_position: Vec2,
    mass: i64,
    radius: i64,
    force: Vec2,
}

impl View for Circle {
    type V = CircleView;

    closed spec fn view(&self) -> CircleView {
        CircleView {
            position: self.position@,
            prev_position: self.prev_position@,
            mass: self.mass as int,
            radius: self.radius as int,
            force: self.force@,
        }
    }
}

fn clamp_force_sum(a: i64, b: i64) -> (r: i64)
    requires
        -FORCE_LIMIT <= a <= FORCE_LIMIT,
        -FORCE_LIMIT <= b <= FORCE_LIMIT,
    ensures
        r == clamp_force_coord(a + b),
{
    let s = a + b;
    if s < -FORCE_LIMIT {
        -FORCE_LIMIT
    } else if s > FORCE_LIMIT {
        FORCE_LIMIT
    } else {
        s
    }
}

impl Circle {
    /// Every particle satisfies `CircleView::wf`.
    #[verifier::type_invariant]
    pub open spec fn inv(self) -> bool {
        self@.wf()
    }

    /// A particle at rest at `position`.
    pub fn new(position: Vec2, radius: i64, mass: i64) -> (r: Circle)
        requires
            point_ok(position@),
            0 <= radius <= RADIUS_LIMIT,
            1 <= mass <= MASS_LIMIT,
        ensures
            r@ == fresh(position@, radius as int, mass as int),
    {
        Circle { position, prev_position: position, mass, radius, force: Vec2 { x: 0, y: 0 } }
    }

    fn verlet(x: i64, prev: i64, f: i64, mass: i64, d_t: i64) -> (r: i64)
        requires
            coord_ok(x as int),
            coord_ok(prev as int),
            -FORCE_LIMIT <= f <= FORCE_LIMIT,
            1 <= mass <= MASS_LIMIT,
            0 < d_t <= DT_LIMIT,
        ensures
            r as int == verlet_coord(x as int, prev as int, f as int, mass as int, d_t as int),
    {
        let dt = d_t as i128;
        let ff = f as i128;
        assert(0 < dt * dt <= 65536 * 65536) by (nonlinear_arith)
            requires
                0 < dt <= 65536,
        ;
        let dt2 = dt * dt;
        assert(-1099511627776 * (65536 * 65536) <= ff * dt2 <= 1099511627776 * (65536 * 65536))
            by (nonlinear_arith)
            requires
                -1099511627776 <= ff <= 1099511627776,
                0 < dt2 <= 65536 * 65536,
        ;
        let num = ff * dt2;
        assert(num == ff * dt * dt) by (nonlinear_arith)
            requires
                num == ff * dt2,
                dt2 == dt * dt,
        ;
        let q = div_trunc(num, mass as i128);
        let wide = 2 * (x as i128) - (prev as i128) + q;
        clamp_to_coord(wide)
    }

    /// One Verlet step of length `d_t`; the accumulated force is consumed.
    pub fn update(&mut self, d_t: i64)
        requires
            0 < d_t <= DT_LIMIT,
        ensures
            final(self)@ == integrated(old(self)@, d_t as int),
    {
        proof {
            use_type_invariant(&*self);
        }
        let nx = Circle::verlet(self.position.x, self.prev_position.x, self.force.x, self.mass, d_t);
        let ny = Circle::verlet(self.position.y, self.prev_position.y, self.force.y, self.mass, d_t);
        self.prev_position = self.position;
        self.position = Vec2 { x: nx, y: ny };
        self.force = Vec2 { x: 0, y: 0 };
    }

    /// Adds `force` to the accumulated force, saturating each component.
    pub fn force(&mut self, force: Vec2)
        requires
            force_ok(force@),
        ensures
            final(self)@ == old(self)@.with_force(
                (
                    clamp_force_coord(old(self)@.force.0 + force.x),
                    clamp_force_coord(old(self)@.force.1 + force.y),
                ),
            ),
    {
        proof {
            use_type_invariant(&*self);
        }
        let fx = clamp_force_sum(self.force.x, force.x);
        let fy = clamp_force_sum(self.force.y, force.y);
        self.force = Vec2 { x: fx, y: fy };
    }

    /// Moves the particle without touching its previous position, so the
    /// move shows up as velocity on the next step.
    pub fn set_raw_position(&mut self, position: Vec2)
        requires
            point_ok(position@),
        ensures
            final(self)@ == old(self)@.at(position@),
    {
        proof {
            use_type_invariant(&*self);
        }
        self.position = position;
    }

    pub fn set_prev_position(&mut self, prev_position: Vec2)
        requires
            point_ok(prev_position@),
        ensures
            final(self)@ == old(self)@.with_prev(prev_position@),
    {
        proof {
            use_type_invariant(&*self);
        }
        self.prev_position = prev_position;
    }

    pub fn get_position(&self) -> (r: Vec2)
        ensures
            r@ == self@.position,
            point_ok(r@),
    {
        proof {
            use_type_invariant(self);
        }
        self.position
    }

    pub fn get_prev_position(&self) -> (r: Vec2)
        ensures
            r@ == self@.prev_position,
    {
        self.prev_position
    }

    /// Moves the particle and keeps its velocity: both positions shift
    /// together (the previous one saturating at the coordinate range).
    pub fn set_position(&mut self, position: Vec2)
        requires
            point_ok(position@),
        ensures
            final(self)@ == old(self)@.at(position@).with_prev(
                clamp_point(vsub(position@, old(self)@.velocity())),
            ),
    {
        proof {
            use_type_invariant(&*self);
        }
        let velocity = self.get_velocity();
        self.position = position;
        self.set_velocity(velocity);
    }

    /// Sets the velocity by placing the previous position behind the current
    /// one (saturating at the coordinate range).
    pub fn set_velocity(&mut self, velocity: Vec2)
        ensures
            final(self)@ == old(self)@.with_prev(
                clamp_point(vsub(old(self)@.position, velocity@)),
            ),
    {
        proof {
            use_type_invariant(&*self);
        }
        let px = clamp_to_coord(self.position.x as i128 - velocity.x as i128);
        let py = clamp_to_coord(self.position.y as i128 - velocity.y as i128);
        self.prev_position = Vec2 { x: px, y: py };
    }

    pub fn get_velocity(&self) -> (r: Vec2)
        ensures
            r@ == self@.velocity(),
    {
        proof {
            use_type_invariant(self);
        }
        Vec2 { x: self.position.x - self.prev_position.x, y: self.position.y - self.prev_position.y }
    }

    pub fn set_force(&mut self, force: Vec2)
        requires
            force_ok(force@),
        ensures
            final(self)@ == old(self)@.with_force(force@),
    {
        proof {
            use_type_invariant(&*self);
        }
        self.force = force;
    }

    pub fn get_force(&self) -> (r: Vec2)
        ensures
            r@ == self@.force,
    {
        self.force
    }

    pub fn get_mass(&self) -> (r: i64)
        ensures
            r == self@.mass,
            1 <= r <= MASS_LIMIT,
    {
        proof {
            use_type_invariant(self);
        }
        self.mass
    }

    pub fn get_size(&self) -> (r: i64)
        ensures
            r == self@.radius,
            0 <= r <= RADIUS_LIMIT,
    {
        proof {
            use_type_invariant(self);
        }
        self.radius
    }

    /// Separates two overlapping particles; `fallback` is the direction
    /// used when their centres coincide.
    pub fn resolve_collision_toward(&mut self, collision_object: &mut Circle, fallback: Vec2)
        requires
            dir_ok(fallback@),
        ensures
            (final(self)@, final(collision_object)@) == resolved(
                old(self)@,
                old(collision_object)@,
                fallback@,
            ),
    {
        proof {
            use_type_invariant(&*self);
            use_type_invariant(&*collision_object);
        }
        let rx = collision_object.position.x as i128 - self.position.x as i128;
        let ry = collision_object.position.y as i128 - self.position.y as i128;
        proof {
            lemma_square_bound(rx as int, 2147483648);
            lemma_square_bound(ry as int, 2147483648);
        }
        let dsq = rx * rx + ry * ry;
        let r = self.radius as i128 + collision_object.radius as i128;
        proof {
            lemma_square_bound(r as int, 33554432);
        }
        let px: i128;
        let py: i128;
        if dsq == 0 {
            if 1 < r * r {
                proof {
                    lemma_dir_bounds(fallback@);
                    lemma_mul_bound(fallback.x as int, r - 1, 2048, 33554432);
                    lemma_mul_bound(fallback.y as int, r - 1, 2048, 33554432);
                }
                px = div_trunc(fallback.x as i128 * (r - 1), DIR_SCALE as i128);
                py = div_trunc(fallback.y as i128 * (r - 1), DIR_SCALE as i128);
            } else {
                return;
            }
        } else if dsq < r * r {
            let l = fine_sqrt(dsq as u128) as i128;
            let k = r * 65536 - l;
            assert(0 < k <= 33554432 * 65536) by {
                assert(dsq * (65536 * 65536) < (r * 65536) * (r * 65536)) by (nonlinear_arith)
                    requires
                        0 <= dsq < r * r,
                ;
                if l >= r * 65536 {
                    assert(l * l >= (r * 65536) * (r * 65536)) by (nonlinear_arith)
                        requires
                            l >= r * 65536,
                            r >= 0,
                    ;
                }
            }
            proof {
                lemma_mul_bound(rx as int, k as int, 2147483648, 2199023255552);
                lemma_mul_bound(ry as int, k as int, 2147483648, 2199023255552);
            }
            px = div_trunc(rx * k, l);
            py = div_trunc(ry * k, l);
        } else {
            return;
        }
        assert(-4722366482869645213696 <= px <= 4722366482869645213696);
        assert(-4722366482869645213696 <= py <= 4722366482869645213696);
        let ma = self.mass as i128;
        let mb = collision_object.mass as i128;
        let split = ma + mb;
        proof {
            lemma_mul_bound(px as int, mb as int, 4722366482869645213696, 1048576);
            lemma_mul_bound(py as int, mb as int, 4722366482869645213696, 1048576);
            lemma_mul_bound(px as int, ma as int, 4722366482869645213696, 1048576);
            lemma_mul_bound(py as int, ma as int, 4722366482869645213696, 1048576);
        }
        let ax = div_trunc(px * mb, split);
        let ay = div_trunc(py * mb, split);
        let bx = div_trunc(px * ma, split);
        let by = div_trunc(py * ma, split);
        self.position = Vec2 {
            x: clamp_to_coord(self.position.x as i128 - ax),
            y: clamp_to_coord(self.position.y as i128 - ay),
        };
        collision_object.position = Vec2 {
            x: clamp_to_coord(collision_object.position.x as i128 + bx),
            y: clamp_to_coord(collision_object.position.y as i128 + by),
        };
    }

    /// Separates two overlapping particles; coincident centres are pushed
    /// apart along a random direction. When the radii sum to fewer than five
    /// units, each mass share of that push may round to zero.
    pub fn resolve_collision(&mut self, collision_object: &mut Circle)
        ensures
            exists|d: (int, int)|
                dir_ok(d) && (final(self)@, final(collision_object)@) == resolved(
                    old(self)@,
                    old(collision_object)@,
                    d,
                ),
    {
        let dir = if self.position.x == collision_object.position.x && self.position.y
            == collision_object.position.y {
            random_direction()
        } else {
            Vec2 { x: DIR_SCALE, y: 0 }
        };
        self.resolve_collision_toward(collision_object, dir);
        assert(dir_ok(dir@));
    }

    /// Whether `position` lies strictly inside the circle.
    pub fn check_collision(&self, position: Vec2) -> (r: bool)
        ensures
            r == (norm_sq(vsub(position@, self@.position)) < self@.radius * self@.radius),
    {
        proof {
            use_type_invariant(self);
        }
        let dx = position.x as i128 - self.position.x as i128;
        let dy = position.y as i128 - self.position.y as i128;
        let rr = self.radius as i128;
        if dx > rr || -dx > rr || dy > rr || -dy > rr {
            proof {
                lemma_outside_box(dx as int, dy as int, rr as int);
            }
            return false;
        }
        proof {
            lemma_square_bound(dx as int, 16777216);
            lemma_square_bound(dy as int, 16777216);
            lemma_square_bound(rr as int, 16777216);
        }
        dx * dx + dy * dy < rr * rr
    }

    /// The offset that carries `point` onto the rim of the circle along the
    /// ray from the centre; zero when `point` is the centre.
    pub fn get_resolution_offset(&self, point: Vec2) -> (r: Vec2)
        requires
            point_ok(point@),
        ensures
            r@ == resolution_offset(self@, point@),
    {
        proof {
            use_type_invariant(self);
        }
        let ox = point.x as i128 - self.position.x as i128;
        let oy = point.y as i128 - self.position.y as i128;
        proof {
            lemma_square_bound(ox as int, 2147483648);
            lemma_square_bound(oy as int, 2147483648);
        }
        if ox == 0 && oy == 0 {
            return Vec2 { x: 0, y: 0 };
        }
        assert(ox * ox + oy * oy >= 1) by (nonlinear_arith)
            requires
                ox != 0 || oy != 0,
        ;
        let l = fine_sqrt((ox * ox + oy * oy) as u128) as i128;
        let rr = self.radius as i128;
        proof {
            lemma_fine_scale(ox as int, oy as int);
            lemma_component_le_sqrt(ox * 65536, oy * 65536, l as int);
            lemma_component_le_sqrt(oy * 65536, ox * 65536, l as int);
            lemma_mul_bound(ox * 65536, rr as int, 140737488355328, 16777216);
            lemma_mul_bound(oy * 65536, rr as int, 140737488355328, 16777216);
            lemma_scaled_within(ox * 65536, rr as int, l as int);
            lemma_scaled_within(oy * 65536, rr as int, l as int);
        }
        let sx = div_trunc((ox * 65536) * rr, l);
        let sy = div_trunc((oy * 65536) * rr, l);
        Vec2 { x: (sx - ox) as i64, y: (sy - oy) as i64 }
    }

    /// Moves both particles half the gap between their separation and
    /// `distance`, in opposite directions along the line joining them. The
    /// separation is measured in steps of `1 / FINE`; `distance` is bounded
    /// only by the fixed-point range.
    pub fn connect(&mut self, other: &mut Circle, distance: i64)
        requires
            -4 * COORD_LIMIT <= distance <= 4 * COORD_LIMIT,
        ensures
            (final(self)@, final(other)@) == connected(old(self)@, old(other)@, distance as int),
    {
        proof {
            use_type_invariant(&*self);
            use_type_invariant(&*other);
        }
        let ox = other.position.x as i128 - self.position.x as i128;
        let oy = other.position.y as i128 - self.position.y as i128;
        proof {
            lemma_square_bound(ox as int, 2147483648);
            lemma_square_bound(oy as int, 2147483648);
        }
        if ox == 0 && oy == 0 {
            return;
        }
        assert(ox * ox + oy * oy >= 1) by (nonlinear_arith)
            requires
                ox != 0 || oy != 0,
        ;
        let l = fine_sqrt((ox * ox + oy * oy) as u128) as i128;
        let k = distance as i128 * 65536 - l;
        proof {
            lemma_mul_bound(ox as int, k as int, 2147483648, 562949953421312);
            lemma_mul_bound(oy as int, k as int, 2147483648, 562949953421312);
        }
        let sx = div_trunc(ox * k, 2 * l);
        let sy = div_trunc(oy * k, 2 * l);
        self.position = Vec2 {
            x: clamp_to_coord(self.position.x as i128 - sx),
            y: clamp_to_coord(self.position.y as i128 - sy),
        };
        other.position = Vec2 {
            x: clamp_to_coord(other.position.x as i128 + sx),
            y: clamp_to_coord(other.position.y as i128 + sy),
        };
    }
}

proof fn lemma_square_bound(a: int, bound: int)
    requires
        -bound <= a <= bound,
    ensures
        0 <= a * a <= bound * bound,
{
    assert(0 <= a * a <= bound * bound) by (nonlinear_arith)
        requires
            -bound <= a <= bound,
    ;
}

proof fn lemma_mul_bound(a: int, b: int, ba: int, bb: int)
    requires
        -ba <= a <= ba,
        -bb <= b <= bb,
    ensures
        -(ba * bb) <= a * b <= ba * bb,
{
    assert(-(ba * bb) <= a * b <= ba * bb) by (nonlinear_arith)
        requires
            -ba <= a <= ba,
            -bb <= b <= bb,
    ;
}

proof fn lemma_outside_box(dx: int, dy: int, r: int)
    requires
        r >= 0,
        dx > r || -dx > r || dy > r || -dy > r,
    ensures
        !(dx * dx + dy * dy < r * r),
{
    assert(dx * dx >= 0 && dy * dy >= 0) by (nonlinear_arith);
    if dx > r || -dx > r {
        assert(dx * dx > r * r) by (nonlinear_arith)
            requires
                dx > r || -dx > r,
                r >= 0,
        ;
    } else {
        assert(dy * dy > r * r) by (nonlinear_arith)
            requires
                dy > r || -dy > r,
                r >= 0,
        ;
    }
}

proof fn lemma_scaled_within(c: int, r: int, m: int)
    requires
        m >= 1,
        -m <= c <= m,
        r >= 0,
    ensures
        -r <= trunc_div(c * r, m) <= r,
{
    if c >= 0 {
        assert(c * r / m <= r) by (nonlinear_arith)
            requires
                m >= 1,
                0 <= c <= m,
                r >= 0,
        ;
        assert(c * r >= 0) by (nonlinear_arith)
            requires
                c >= 0,
                r >= 0,
        ;
    } else {
        assert((-(c * r)) / m <= r) by (nonlinear_arith)
            requires
                m >= 1,
                0 <= -c <= m,
                r >= 0,
        ;
        assert(c * r <= 0) by (nonlinear_arith)
            requires
                c < 0,
                r >= 0,
        ;
    }
}

} // verus!
