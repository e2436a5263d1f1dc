use particle_sandbox::circle::{direction_from, random_direction};
use particle_sandbox::grid::BUCKET_COUNT;
use particle_sandbox::vec2::{div_trunc, isqrt};
use particle_sandbox::{bucket_of, neighbor_buckets, BoundedGravity, Circle, PhysicsWorld, Vec2};

fn at(x: i64, y: i64, radius: i64, mass: i64) -> Circle {
    Circle::new(Vec2::new(x, y), radius, mass)
}

#[test]
fn new_circle_is_at_rest() {
    let c = at(7, -3, 4, 2);
    assert_eq!(c.get_position(), Vec2::new(7, -3));
    assert_eq!(c.get_prev_position(), Vec2::new(7, -3));
    assert_eq!(c.get_velocity(), Vec2::new(0, 0));
    assert_eq!(c.get_force(), Vec2::new(0, 0));
    assert_eq!(c.get_mass(), 2);
    assert_eq!(c.get_size(), 4);
}

#[test]
fn verlet_step_uses_force_over_mass() {
    let mut c = at(100, 200, 10, 2);
    c.set_force(Vec2::new(8, -6));
    c.update(3);
    assert_eq!(c.get_position(), Vec2::new(136, 173));
    assert_eq!(c.get_prev_position(), Vec2::new(100, 200));
    assert_eq!(c.get_force(), Vec2::new(0, 0));
}

#[test]
fn verlet_step_keeps_velocity() {
    let mut c = at(10, 10, 1, 1);
    c.set_velocity(Vec2::new(5, -2));
    c.update(1);
    assert_eq!(c.get_position(), Vec2::new(15, 8));
    c.update(1);
    assert_eq!(c.get_position(), Vec2::new(20, 6));
}

#[test]
fn force_accumulates() {
    let mut c = at(0, 0, 1, 1);
    c.force(Vec2::new(3, 4));
    c.force(Vec2::new(-1, 6));
    assert_eq!(c.get_force(), Vec2::new(2, 10));
}

#[test]
fn set_position_keeps_velocity() {
    let mut c = at(0, 0, 1, 1);
    c.set_velocity(Vec2::new(2, 3));
    c.set_position(Vec2::new(50, 60));
    assert_eq!(c.get_position(), Vec2::new(50, 60));
    assert_eq!(c.get_velocity(), Vec2::new(2, 3));
    c.set_raw_position(Vec2::new(52, 60));
    assert_eq!(c.get_velocity(), Vec2::new(4, 3));
    c.set_prev_position(Vec2::new(52, 60));
    assert_eq!(c.get_velocity(), Vec2::new(0, 0));
}

#[test]
fn overlapping_equal_masses_split_evenly() {
    let mut a = at(0, 0, 10, 1);
    let mut b = at(12, 0, 10, 1);
    a.resolve_collision(&mut b);
    assert_eq!(a.get_position(), Vec2::new(-4, 0));
    assert_eq!(b.get_position(), Vec2::new(16, 0));
    assert_eq!(a.get_prev_position(), Vec2::new(0, 0));
}

#[test]
fn equal_masses_keep_midpoint() {
    let mut a = at(0, 0, 5, 4);
    let mut b = at(3, 4, 5, 4);
    a.resolve_collision(&mut b);
    assert_eq!(a.get_position(), Vec2::new(-1, -2));
    assert_eq!(b.get_position(), Vec2::new(4, 6));
    let sum = (a.get_position().x + b.get_position().x, a.get_position().y + b.get_position().y);
    assert_eq!(sum, (3, 4));
}

#[test]
fn lighter_body_moves_further() {
    let mut a = at(0, 0, 10, 1);
    let mut b = at(12, 0, 10, 3);
    a.resolve_collision(&mut b);
    assert_eq!(a.get_position(), Vec2::new(-6, 0));
    assert_eq!(b.get_position(), Vec2::new(14, 0));
}

#[test]
fn separated_pair_is_untouched() {
    let mut a = at(0, 0, 10, 1);
    let mut b = at(20, 0, 10, 1);
    a.resolve_collision(&mut b);
    assert_eq!(a.get_position(), Vec2::new(0, 0));
    assert_eq!(b.get_position(), Vec2::new(20, 0));
    let mut c = at(0, 0, 0, 1);
    let mut d = at(0, 0, 0, 1);
    c.resolve_collision(&mut d);
    assert_eq!(c.get_position(), d.get_position());
}

#[test]
fn coincident_centres_use_fallback_direction() {
    let mut a = at(0, 0, 10, 1);
    let mut b = at(0, 0, 10, 1);
    a.resolve_collision_toward(&mut b, Vec2::new(1024, 0));
    assert_eq!(a.get_position(), Vec2::new(-9, 0));
    assert_eq!(b.get_position(), Vec2::new(9, 0));
}

#[test]
fn coincident_centres_always_separate() {
    for _ in 0..200 {
        let mut a = at(1000, 1000, 1024, 1);
        let mut b = at(1000, 1000, 1024, 1);
        a.resolve_collision(&mut b);
        assert_ne!(a.get_position(), b.get_position());
    }
}

#[test]
fn random_direction_is_bounded_and_nonzero() {
    let first = random_direction();
    let mut varied = false;
    for _ in 0..200 {
        let d = random_direction();
        let n = d.x * d.x + d.y * d.y;
        assert!(1021 * 1021 <= n && n <= 1028 * 1028);
        varied = varied || d != first;
    }
    assert!(varied);
}

#[test]
fn connect_reaches_target_on_axis() {
    let mut a = at(0, 0, 1, 1);
    let mut b = at(10, 0, 1, 1);
    a.connect(&mut b, 20);
    assert_eq!(a.get_position(), Vec2::new(-5, 0));
    assert_eq!(b.get_position(), Vec2::new(15, 0));
}

#[test]
fn connect_pulls_together() {
    let mut a = at(0, 0, 1, 1);
    let mut b = at(0, 100, 1, 1);
    a.connect(&mut b, 40);
    assert_eq!(a.get_position(), Vec2::new(0, 30));
    assert_eq!(b.get_position(), Vec2::new(0, 70));
}

#[test]
fn connect_diagonal_within_tolerance() {
    let mut a = at(0, 0, 1, 1);
    let mut b = at(3, 4, 1, 1);
    a.connect(&mut b, 10);
    assert_eq!(a.get_position(), Vec2::new(-1, -2));
    assert_eq!(b.get_position(), Vec2::new(4, 6));
}

#[test]
fn connect_reaches_target_distance() {
    let mut a = at(0, 0, 1, 1);
    let mut b = at(300, 400, 1, 1);
    a.connect(&mut b, 100);
    assert_eq!(a.get_position(), Vec2::new(120, 160));
    assert_eq!(b.get_position(), Vec2::new(180, 240));

    let mut c = at(0, 0, 1, 1);
    let mut d = at(7, 5, 1, 1);
    c.connect(&mut d, 30);
    assert_eq!(c.get_position(), Vec2::new(-8, -6));
    assert_eq!(d.get_position(), Vec2::new(15, 11));
    let (dx, dy) = (15 - -8, 11 - -6);
    let sq = dx * dx + dy * dy;
    assert!(27 * 27 <= sq && sq <= 33 * 33);
}

#[test]
fn connect_coincident_is_noop() {
    let mut a = at(5, 5, 1, 1);
    let mut b = at(5, 5, 1, 1);
    a.connect(&mut b, 10);
    assert_eq!(a.get_position(), Vec2::new(5, 5));
    assert_eq!(b.get_position(), Vec2::new(5, 5));
}

#[test]
fn check_collision_is_strict() {
    let c = at(0, 0, 5, 1);
    assert!(c.check_collision(Vec2::new(3, 3)));
    assert!(!c.check_collision(Vec2::new(4, 3)));
    assert!(!c.check_collision(Vec2::new(100, 0)));
    assert!(!c.check_collision(Vec2::new(i64::MIN, i64::MAX)));
}

#[test]
fn resolution_offset_reaches_rim() {
    let c = at(0, 0, 10, 1);
    assert_eq!(c.get_resolution_offset(Vec2::new(3, 4)), Vec2::new(3, 4));
    assert_eq!(c.get_resolution_offset(Vec2::new(0, 20)), Vec2::new(0, -10));
    assert_eq!(c.get_resolution_offset(Vec2::new(0, 0)), Vec2::new(0, 0));
}

#[test]
fn resting_circle_stays_put() {
    let mut c = at(500, 500, 3, 2);
    for _ in 0..50 {
        c.update(16);
    }
    assert_eq!(c.get_position(), Vec2::new(500, 500));
}

#[test]
fn constant_force_follows_triangular_law() {
    let mut c = at(0, 0, 1, 2);
    for _ in 0..3 {
        c.force(Vec2::new(0, 4));
        c.update(1);
    }
    assert_eq!(c.get_position(), Vec2::new(0, 12));
    let mut d = at(0, 0, 1, 1);
    let n: i64 = 10;
    for _ in 0..n {
        d.force(Vec2::new(3, 0));
        d.update(2);
    }
    assert_eq!(d.get_position().x, 12 * n * (n + 1) / 2);
}

#[test]
fn bucket_of_clamps_to_grid() {
    assert_eq!(bucket_of(0, 0, 640, 640), 0);
    assert_eq!(bucket_of(-5, -5, 640, 640), 0);
    assert_eq!(bucket_of(639, 0, 640, 640), 319);
    assert_eq!(bucket_of(640, 640, 640, 640), 102399);
    assert_eq!(bucket_of(1_000_000, 3, 640, 640), 639);
    assert_eq!(bucket_of(i64::MAX, i64::MAX, 640, 640), BUCKET_COUNT - 1);
    assert_eq!(bucket_of(i64::MIN, i64::MIN, 640, 640), 0);
    assert_eq!(bucket_of(5, 0, 0, 640), 319);
    assert_eq!(bucket_of(0, 0, 0, 0), 0);
}

#[test]
fn neighbors_are_cut_at_edges() {
    assert_eq!(neighbor_buckets(0), vec![0, 320, 1, 321]);
    assert_eq!(neighbor_buckets(321), vec![0, 320, 640, 1, 321, 641, 2, 322, 642]);
    assert_eq!(neighbor_buckets(319), vec![318, 638, 319, 639]);
    assert_eq!(neighbor_buckets(102399), vec![102078, 102398, 102079, 102399]);
}

#[test]
fn isqrt_and_division() {
    assert_eq!(isqrt(0), 0);
    assert_eq!(isqrt(15), 3);
    assert_eq!(isqrt(16), 4);
    assert_eq!(isqrt(u128::MAX), u64::MAX);
    assert_eq!(div_trunc(-7, 2), -3);
    assert_eq!(div_trunc(7, 2), 3);
}

#[test]
fn push_object_appends_and_keeps_indices() {
    let mut w = PhysicsWorld::new(655360, 655360);
    assert_eq!(w.count(), 0);
    for k in 0..5 {
        w.push_object(at(1000 * k, 2000, 10, 1));
        assert_eq!(w.count(), (k + 1) as usize);
    }
    for k in 0..5 {
        assert_eq!(w.get_object(k as usize).unwrap().get_position(), Vec2::new(1000 * k, 2000));
    }
    assert!(w.get_object(5).is_none());
    assert_eq!(w.get_objects().len(), 5);
}

#[test]
fn get_object_mut_changes_one_circle() {
    let mut w = PhysicsWorld::new(640, 640);
    w.push_object(at(1, 1, 1, 1));
    w.push_object(at(2, 2, 1, 1));
    w.get_object_mut(1).unwrap().set_velocity(Vec2::new(3, 0));
    assert!(w.get_object_mut(2).is_none());
    assert_eq!(w.get_object(1).unwrap().get_velocity(), Vec2::new(3, 0));
    assert_eq!(w.get_object(0).unwrap().get_velocity(), Vec2::new(0, 0));
}

#[test]
fn tick_resolves_then_integrates() {
    let mut w = PhysicsWorld::new(655360, 655360);
    w.push_object(at(100000, 100000, 1024, 1));
    w.push_object(at(101000, 100000, 1024, 1));
    w.update(1, &|c: Circle| c);
    assert_eq!(w.get_object(0).unwrap().get_position(), Vec2::new(98952, 100000));
    assert_eq!(w.get_object(1).unwrap().get_position(), Vec2::new(102048, 100000));
    assert_eq!(w.get_object(0).unwrap().get_force(), Vec2::new(0, 0));
    assert_eq!(w.get_object(1).unwrap().get_force(), Vec2::new(0, 0));
}

#[test]
fn distant_circles_do_not_interact() {
    let mut w = PhysicsWorld::new(655360, 655360);
    w.push_object(at(100000, 100000, 1024, 1));
    w.push_object(at(300000, 100000, 1024, 1));
    for _ in 0..5 {
        w.update(4, &|c: Circle| c);
    }
    assert_eq!(w.get_object(0).unwrap().get_position(), Vec2::new(100000, 100000));
    assert_eq!(w.get_object(1).unwrap().get_position(), Vec2::new(300000, 100000));
}

#[test]
fn forces_are_cleared_after_tick() {
    let mut w = PhysicsWorld::new(655360, 655360);
    for k in 0..20 {
        w.push_object(at(50000 + 1500 * k, 50000, 1024, 1 + k));
    }
    for k in 0..20 {
        w.get_object_mut(k).unwrap().force(Vec2::new(7, 7));
    }
    w.update(2, &|c: Circle| c);
    for k in 0..20 {
        assert_eq!(w.get_object(k).unwrap().get_force(), Vec2::new(0, 0));
    }
}

#[test]
fn gravity_hook_pulls_and_walls() {
    let g = BoundedGravity::new(10, 1000, 1000);
    let c = g.apply(at(5, 2000, 10, 3));
    assert_eq!(c.get_force(), Vec2::new(0, 30));
    assert_eq!(c.get_position(), Vec2::new(10, 990));
    let inside = g.apply(at(500, 500, 10, 1));
    assert_eq!(inside.get_position(), Vec2::new(500, 500));
}

#[test]
fn gravity_hook_in_tick() {
    let g = BoundedGravity::new(2, 655360, 655360);
    let mut w = PhysicsWorld::new(655360, 655360);
    w.push_object(at(1000, 1000, 10, 5));
    w.update(1, &|c: Circle| g.apply(c));
    assert_eq!(w.get_object(0).unwrap().get_force(), Vec2::new(0, 10));
    w.update(1, &|c: Circle| g.apply(c));
    assert_eq!(w.get_object(0).unwrap().get_position(), Vec2::new(1000, 1002));
}

#[test]
fn close_overlap_separates_to_contact() {
    let mut a = at(0, 0, 50, 1);
    let mut b = at(1, 1, 50, 1);
    a.resolve_collision(&mut b);
    assert_eq!(a.get_position(), Vec2::new(-34, -34));
    assert_eq!(b.get_position(), Vec2::new(35, 35));
    let sq = 69 * 69 * 2;
    assert!(97 * 97 <= sq && sq <= 103 * 103);
}

#[test]
fn connect_from_short_separation() {
    let mut a = at(0, 0, 1, 1);
    let mut b = at(1, 1, 1, 1);
    a.connect(&mut b, 100);
    assert_eq!(a.get_position(), Vec2::new(-34, -34));
    assert_eq!(b.get_position(), Vec2::new(35, 35));
}

#[test]
fn resolution_offset_near_centre() {
    let c = at(0, 0, 100, 1);
    assert_eq!(c.get_resolution_offset(Vec2::new(1, 1)), Vec2::new(69, 69));
}

#[test]
fn direction_from_scales_to_unit() {
    assert_eq!(direction_from(1, 1), Vec2::new(724, 724));
    assert_eq!(direction_from(-3, 0), Vec2::new(-1024, 0));
    assert_eq!(direction_from(0, 0), Vec2::new(1024, 0));
    assert_eq!(direction_from(5, -12), Vec2::new(393, -945));
    assert_eq!(direction_from(-1024, 1023), Vec2::new(-724, 723));
}

#[test]
fn coincident_pair_with_diagonal_direction() {
    let mut a = at(1000, 1000, 2, 1);
    let mut b = at(1000, 1000, 2, 1);
    a.resolve_collision_toward(&mut b, direction_from(1, 1));
    assert_eq!(a.get_position(), Vec2::new(999, 999));
    assert_eq!(b.get_position(), Vec2::new(1001, 1001));
}
