//! A ready-made per-tick hook: constant gravity and walls at the domain's edges.
use vstd::prelude::*;
use crate::circle::{clamp_force_coord, Circle, CircleView, MASS_LIMIT, RADIUS_LIMIT};
use crate::vec2::{Vec2, COORD_LIMIT};

verus! {

/// Largest gravity (acceleration) the hook accepts.
pub const GRAVITY_LIMIT: i64 = 1048576;

/// `v` clamped into `[lo, hi]`, with `lo` taking precedence when `lo > hi`.
pub open spec fn keep_within(v: int, lo: int, hi: int) -> int {
    if v < lo {
        lo
    } else if v > hi {
        if hi < lo {
            lo
        } else {
            hi
        }
    } else {
        v
    }
}

/// Pulls every particle down (towards larger `y`) with force
/// `gravity × mass`, and keeps its centre at least one radius inside the
/// domain `[0, width] × [0, height]`.
#[derive(Clone, Copy, Debug)]
pub struct BoundedGravity {
    gravity: i64,
    width: i64,
    height: i64,
}

/// What the hook does to one particle.
pub open spec fn gravity_applied(g: int, width: int, height: int, p: CircleView) -> CircleView {
    CircleView {
        position: (
            keep_within(p.position.0, p.radius, width - p.radius),
            keep_within(p.position.1, p.radius, height - p.radius),
        ),
        prev_position: p.prev_position,
        mass: p.mass,
        radius: p.radius,
        force: (p.force.0, clamp_force_coord(p.force.1 + g * p.mass)),
    }
}

fn keep_coord_within(v: i64, lo: i64, hi: i64) -> (r: i64)
    ensures
        r == keep_within(v as int, lo as int, hi as int),
{
    if v < lo {
        lo
    } else if v > hi {
        if hi < lo {
            lo
        } else {
            hi
        }
    } else {
        v
    }
}

impl BoundedGravity {
    #[verifier::type_invariant]
    spec fn inv(self) -> bool {
        &&& -GRAVITY_LIMIT <= self.gravity <= GRAVITY_LIMIT
        &&& 0 <= self.width <= COORD_LIMIT
        &&& 0 <= self.height <= COORD_LIMIT
    }

    pub closed spec fn spec_gravity(self) -> int {
        self.gravity as int
    }

    pub closed spec fn spec_width(self) -> int {
        self.width as int
    }

    pub closed spec fn spec_height(self) -> int {
        self.height as int
    }

    pub fn new(gravity: i64, width: i64, height: i64) -> (r: BoundedGravity)
        requires
            -GRAVITY_LIMIT <= gravity <= GRAVITY_LIMIT,
            0 <= width <= COORD_LIMIT,
            0 <= height <= COORD_LIMIT,
        ensures
            r.spec_gravity() == gravity,
            r.spec_width() == width,
            r.spec_height() == height,
    {
        BoundedGravity { gravity, width, height }
    }

    /// Adds the weight of `p` to its force, then moves it back inside the
    /// walls (a move that the next step turns into velocity).
    pub fn apply(&self, p: Circle) -> (r: Circle)
        ensures
            r@ == gravity_applied(
                self.spec_gravity(),
                self.spec_width(),
                self.spec_height(),
                p@,
            ),
    {
        proof {
            use_type_invariant(self);
        }
        proof {
            use_type_invariant(&p);
        }
        let mut q = p;
        let m = q.get_mass();
        let radius = q.get_size();
        assert(-GRAVITY_LIMIT * MASS_LIMIT <= self.gravity * m <= GRAVITY_LIMIT * MASS_LIMIT)
            by (nonlinear_arith)
            requires
                -GRAVITY_LIMIT <= self.gravity <= GRAVITY_LIMIT,
                1 <= m <= MASS_LIMIT,
        ;
        q.force(Vec2 { x: 0, y: self.gravity * m });
        let pos = q.get_position();
        assert(0 <= radius <= RADIUS_LIMIT);
        let x = keep_coord_within(pos.x, radius, self.width - radius);
        let y = keep_coord_within(pos.y, radius, self.height - radius);
        q.set_raw_position(Vec2 { x, y });
        q
    }
}

} // verus!
