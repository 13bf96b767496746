use gravity_sim::color::Color;
use gravity_sim::fixed::Fixed;
use gravity_sim::object::{Object, ObjectPool};
use gravity_sim::physics::PhysicsHandler;
use gravity_sim::vector::Vec3;

fn raw(x: i64) -> Fixed {
    Fixed::from_raw(x)
}

fn vec_raw(x: i64, y: i64, z: i64) -> Vec3 {
    Vec3::new(raw(x), raw(y), raw(z))
}

fn hundredth() -> Fixed {
    raw(10_000_000)
}

fn body(x: i32, mass: i32, vx: i32) -> Object {
    Object::new(
        Vec3::from_ints(x, 0, 0),
        Vec3::from_ints(vx, 0, 0),
        Fixed::from_int(mass),
        Fixed::one(),
        Color::white(),
    )
}

fn ids(pool: &ObjectPool) -> Vec<usize> {
    pool.iter().iter().map(|o| o.id).collect()
}

#[test]
fn default_handler_has_constant_one_and_a_step_of_a_hundredth() {
    let handler = PhysicsHandler::default();
    assert_eq!(handler.get_grav_const(), Fixed::one());
    assert_eq!(handler.get_timestep(), hundredth());
    assert_eq!(handler.get_accumulator(), Fixed::zero());
    let other = PhysicsHandler::new(Fixed::from_int(3), Fixed::from_int(2));
    assert_eq!(other.get_grav_const(), Fixed::from_int(3));
    assert_eq!(other.get_timestep(), Fixed::from_int(2));
    assert_eq!(other.get_accumulator(), Fixed::zero());
}

#[test]
fn force_follows_the_inverse_square_law() {
    let f = PhysicsHandler::get_grav_force(
        Fixed::from_int(2),
        Fixed::from_int(3),
        Fixed::one(),
        Vec3::from_ints(0, 3, 4),
    );
    assert_eq!(f, vec_raw(0, 144_000_000, 192_000_000));
}

#[test]
fn force_scales_with_each_mass() {
    let d = Vec3::from_ints(0, 3, 4);
    let doubled_first = PhysicsHandler::get_grav_force(
        Fixed::from_int(4),
        Fixed::from_int(3),
        Fixed::one(),
        d,
    );
    let doubled_second = PhysicsHandler::get_grav_force(
        Fixed::from_int(2),
        Fixed::from_int(6),
        Fixed::one(),
        d,
    );
    assert_eq!(doubled_first, vec_raw(0, 288_000_000, 384_000_000));
    assert_eq!(doubled_second, vec_raw(0, 288_000_000, 384_000_000));
}

#[test]
fn force_falls_with_the_square_of_the_distance() {
    let f = PhysicsHandler::get_grav_force(
        Fixed::from_int(2),
        Fixed::from_int(3),
        Fixed::one(),
        Vec3::from_ints(0, 6, 8),
    );
    assert_eq!(f, vec_raw(0, 36_000_000, 48_000_000));
}

#[test]
fn force_points_from_the_first_body_to_the_second() {
    let f = PhysicsHandler::get_grav_force(
        Fixed::one(),
        Fixed::one(),
        Fixed::one(),
        Vec3::from_ints(-2, 0, 0),
    );
    assert_eq!(f, vec_raw(-250_000_000, 0, 0));
    let g = PhysicsHandler::get_grav_force(
        Fixed::one(),
        Fixed::one(),
        Fixed::one(),
        Vec3::from_ints(1, -1, 1),
    );
    assert!(g.x.raw > 0 && g.y.raw < 0 && g.z.raw > 0);
    assert_eq!(g.x.raw, -g.y.raw);
    assert_eq!(g.x.raw, g.z.raw);
}

#[test]
fn force_between_coincident_bodies_is_zero() {
    for m in [0, 1, 5, 1000] {
        let f = PhysicsHandler::get_grav_force(
            Fixed::from_int(m),
            Fixed::from_int(3 * m),
            Fixed::from_int(7),
            Vec3::zero(),
        );
        assert_eq!(f, Vec3::zero());
    }
}

#[test]
fn force_at_the_smallest_distance_saturates() {
    let f = PhysicsHandler::get_grav_force(
        Fixed::from_int(10),
        Fixed::from_int(10),
        Fixed::one(),
        vec_raw(1, 0, 0),
    );
    assert_eq!(f, vec_raw(i64::MAX, 0, 0));
}

#[test]
fn velocity_change_is_zero_without_mass_or_time() {
    let force = Vec3::from_ints(5, -6, 7);
    assert_eq!(
        PhysicsHandler::get_veloc(force, Fixed::zero(), Fixed::one()),
        Vec3::zero()
    );
    assert_eq!(
        PhysicsHandler::get_veloc(force, Fixed::one(), Fixed::zero()),
        Vec3::zero()
    );
    assert_eq!(
        PhysicsHandler::get_veloc(force, Fixed::zero(), Fixed::zero()),
        Vec3::zero()
    );
    assert_eq!(
        PhysicsHandler::get_displ(force, Fixed::zero(), Fixed::one()),
        Vec3::zero()
    );
    assert_eq!(
        PhysicsHandler::get_displ(force, Fixed::one(), Fixed::zero()),
        Vec3::zero()
    );
}

#[test]
fn velocity_change_is_force_over_mass_times_time() {
    assert_eq!(
        PhysicsHandler::get_veloc(Vec3::from_ints(4, 0, -8), Fixed::from_int(10), hundredth()),
        vec_raw(4_000_000, 0, -8_000_000)
    );
}

#[test]
fn displacement_is_force_over_mass_times_time_squared() {
    assert_eq!(
        PhysicsHandler::get_displ(Vec3::from_ints(4, 0, -8), Fixed::from_int(10), hundredth()),
        vec_raw(40_000, 0, -80_000)
    );
    assert_eq!(
        PhysicsHandler::get_displ(Vec3::from_ints(1, 2, 3), Fixed::from_int(2), Fixed::from_int(3)),
        vec_raw(4_500_000_000, 9_000_000_000, 13_500_000_000)
    );
}

#[test]
fn pull_of_a_pool_sums_over_its_bodies() {
    let handler = PhysicsHandler::default();
    let mut pool = ObjectPool::new();
    pool.push(body(0, 10, 0));
    pool.push(body(5, 10, 0));
    let a = *pool.get(1).unwrap();
    let b = *pool.get(2).unwrap();
    assert_eq!(handler.get_obj_veloc(&a, &pool), vec_raw(4_000_000, 0, 0));
    assert_eq!(handler.get_obj_veloc(&b, &pool), vec_raw(-4_000_000, 0, 0));
    pool.push(body(-5, 10, 0));
    assert_eq!(handler.get_obj_veloc(&a, &pool), Vec3::zero());
}

#[test]
fn step_updates_all_bodies_from_the_state_before() {
    let handler = PhysicsHandler::default();
    let mut pool = ObjectPool::new();
    pool.push(body(0, 10, 0));
    pool.push(body(5, 10, 0));
    handler.update_objects(&mut pool);
    let a = pool.get(1).unwrap();
    let b = pool.get(2).unwrap();
    assert_eq!(a.velocity, vec_raw(4_000_000, 0, 0));
    assert_eq!(a.position, vec_raw(40_000, 0, 0));
    assert_eq!(b.velocity, vec_raw(-4_000_000, 0, 0));
    assert_eq!(b.position, vec_raw(4_999_960_000, 0, 0));
    assert_eq!(pool.counter(), 2);
}

#[test]
fn lone_body_at_rest_stays_where_it_is() {
    let handler = PhysicsHandler::default();
    let mut pool = ObjectPool::new();
    pool.push(body(3, 10, 0));
    let before = *pool.get(1).unwrap();
    handler.update_objects(&mut pool);
    assert_eq!(pool.len(), 1);
    assert_eq!(*pool.get(1).unwrap(), before);
}

#[test]
fn lone_moving_body_keeps_its_velocity() {
    let handler = PhysicsHandler::default();
    let mut pool = ObjectPool::new();
    pool.push(body(3, 10, 2));
    handler.update_objects(&mut pool);
    let after = pool.get(1).unwrap();
    assert_eq!(after.velocity, Vec3::from_ints(2, 0, 0));
    assert_eq!(after.position, vec_raw(3_020_000_000, 0, 0));
}

#[test]
fn merge_keeps_momentum_and_mass() {
    let red = Color::new(Fixed::one(), Fixed::zero(), Fixed::zero(), Fixed::one());
    let blue = Color::new(Fixed::zero(), Fixed::zero(), Fixed::one(), Fixed::one());
    let a = Object {
        id: 1,
        position: Vec3::from_ints(0, 0, 0),
        velocity: Vec3::from_ints(1, 0, 0),
        mass: Fixed::from_int(3),
        radius: Fixed::from_int(1),
        color: red,
    };
    let b = Object {
        id: 2,
        position: Vec3::from_ints(1, 0, 0),
        velocity: Vec3::from_ints(-2, 4, 0),
        mass: Fixed::from_int(1),
        radius: Fixed::from_int(2),
        color: blue,
    };
    let expected = Object {
        id: 0,
        position: Vec3::from_ints(0, 0, 0),
        velocity: vec_raw(250_000_000, 1_000_000_000, 0),
        mass: Fixed::from_int(4),
        radius: Fixed::from_int(3),
        color: Color::new(raw(666_666_667), raw(0), raw(333_333_333), Fixed::one()),
    };
    assert_eq!(PhysicsHandler::merge(&a, &b), expected);
    let swapped = PhysicsHandler::merge(&b, &a);
    assert_eq!(swapped, expected);
}

#[test]
fn merge_of_equal_masses_takes_the_place_of_the_first() {
    let a = body(0, 5, 0);
    let b = body(1, 5, 0);
    assert_eq!(PhysicsHandler::merge(&a, &b).position, Vec3::from_ints(0, 0, 0));
    assert_eq!(PhysicsHandler::merge(&b, &a).position, Vec3::from_ints(1, 0, 0));
}

#[test]
fn head_on_merge_of_equal_bodies_comes_to_rest() {
    let a = body(0, 7, 3);
    let b = body(1, 7, -3);
    let m = PhysicsHandler::merge(&a, &b);
    assert_eq!(m.velocity, Vec3::zero());
    assert_eq!(m.mass, Fixed::from_int(14));
    assert_eq!(m.position, a.position);
    assert_eq!(m.radius, Fixed::from_int(2));
}

#[test]
fn merge_of_massless_bodies_is_at_rest_and_untinted() {
    let red = Color::new(Fixed::one(), Fixed::zero(), Fixed::zero(), Fixed::one());
    let a = Object { mass: Fixed::zero(), color: red, ..body(0, 0, 5) };
    let b = Object { mass: Fixed::zero(), ..body(1, 0, -2) };
    let m = PhysicsHandler::merge(&a, &b);
    assert_eq!(m.mass, Fixed::zero());
    assert_eq!(m.velocity, Vec3::zero());
    assert_eq!(m.color, red);
    assert_eq!(m.position, a.position);
}

#[test]
fn overlap_is_strict_and_needs_two_bodies() {
    let a = Object { id: 1, ..body(0, 1, 0) };
    let touching = Object { id: 2, ..body(2, 1, 0) };
    let close = Object {
        id: 3,
        position: vec_raw(1_999_999_999, 0, 0),
        ..body(0, 1, 0)
    };
    assert!(!PhysicsHandler::overlaps(&a, &touching, None));
    assert!(PhysicsHandler::overlaps(&a, &close, None));
    assert!(PhysicsHandler::overlaps(&close, &a, None));
    assert!(!PhysicsHandler::overlaps(&a, &a, None));
    assert!(!PhysicsHandler::overlaps(&a, &close, Some(1)));
    assert!(!PhysicsHandler::overlaps(&a, &close, Some(3)));
    assert!(PhysicsHandler::overlaps(&a, &close, Some(2)));
}

#[test]
fn resolve_merges_one_pair_only() {
    let mut pool = ObjectPool::new();
    pool.push(body(0, 1, 0));
    pool.push(body(1, 2, 0));
    pool.push(body(0, 4, 0));
    pool.push(body(50, 8, 0));
    assert!(PhysicsHandler::resolve(&mut pool, None));
    assert_eq!(ids(&pool), vec![3, 4, 5]);
    assert_eq!(pool.counter(), 5);
    let merged = pool.get(5).unwrap();
    assert_eq!(merged.mass, Fixed::from_int(3));
    assert_eq!(merged.position, Vec3::from_ints(1, 0, 0));
    assert_eq!(merged.radius, Fixed::from_int(2));

    assert!(PhysicsHandler::resolve(&mut pool, None));
    assert_eq!(ids(&pool), vec![4, 6]);
    assert_eq!(pool.get(6).unwrap().mass, Fixed::from_int(7));

    assert!(!PhysicsHandler::resolve(&mut pool, None));
    assert_eq!(ids(&pool), vec![4, 6]);
    assert_eq!(pool.counter(), 6);
}

#[test]
fn resolve_leaves_an_ignored_body_alone() {
    let mut pool = ObjectPool::new();
    pool.push(body(0, 1, 0));
    pool.push(body(1, 2, 0));
    assert!(!PhysicsHandler::resolve(&mut pool, Some(1)));
    assert!(!PhysicsHandler::resolve(&mut pool, Some(2)));
    assert_eq!(ids(&pool), vec![1, 2]);
    pool.push(body(1, 4, 0));
    assert!(PhysicsHandler::resolve(&mut pool, Some(1)));
    assert_eq!(ids(&pool), vec![1, 4]);
    assert_eq!(pool.get(4).unwrap().mass, Fixed::from_int(6));
}

#[test]
fn resolve_of_an_empty_pool_does_nothing() {
    let mut pool = ObjectPool::new();
    assert!(!PhysicsHandler::resolve(&mut pool, None));
    assert_eq!(pool.len(), 0);
    assert_eq!(pool.counter(), 0);
}

#[test]
fn handle_collisions_merges_with_the_first_partner() {
    let mut pool = ObjectPool::new();
    pool.push(body(10, 1, 0));
    pool.push(body(0, 2, 0));
    pool.push(body(1, 4, 0));
    pool.push(body(0, 8, 0));
    let probe = *pool.get(4).unwrap();
    assert!(PhysicsHandler::handle_collisions(&mut pool, &probe, None));
    assert_eq!(ids(&pool), vec![1, 3, 5]);
    assert_eq!(pool.get(5).unwrap().mass, Fixed::from_int(10));
    let far = *pool.get(1).unwrap();
    assert!(!PhysicsHandler::handle_collisions(&mut pool, &far, None));
    assert_eq!(ids(&pool), vec![1, 3, 5]);
}

#[test]
fn step_merges_overlapping_bodies() {
    let handler = PhysicsHandler::default();
    let mut pool = ObjectPool::new();
    pool.push(body(0, 10, 1));
    pool.push(body(1, 10, -1));
    handler.update_objects(&mut pool);
    assert_eq!(ids(&pool), vec![3]);
    let merged = pool.get(3).unwrap();
    assert_eq!(merged.mass, Fixed::from_int(20));
    assert_eq!(merged.velocity, Vec3::zero());
    assert_eq!(merged.radius, Fixed::from_int(2));
}

#[test]
fn driver_takes_whole_steps_and_keeps_the_rest() {
    let mut handler = PhysicsHandler::default();
    let mut pool = ObjectPool::new();
    pool.push(body(0, 1, 1));
    handler.update(&mut pool, raw(35_000_000));
    assert_eq!(pool.get(1).unwrap().position, vec_raw(30_000_000, 0, 0));
    assert_eq!(handler.get_accumulator(), raw(5_000_000));
    handler.update(&mut pool, raw(5_000_000));
    assert_eq!(pool.get(1).unwrap().position, vec_raw(30_000_000, 0, 0));
    assert_eq!(handler.get_accumulator(), raw(10_000_000));
    handler.update(&mut pool, raw(1));
    assert_eq!(pool.get(1).unwrap().position, vec_raw(40_000_000, 0, 0));
    assert_eq!(handler.get_accumulator(), raw(1));
    assert_eq!(handler.get_timestep(), hundredth());
    assert_eq!(handler.get_grav_const(), Fixed::one());
}

#[test]
fn driver_takes_no_step_while_no_more_than_one_is_owed() {
    let mut handler = PhysicsHandler::default();
    let mut pool = ObjectPool::new();
    pool.push(body(0, 1, 1));
    handler.update(&mut pool, hundredth());
    assert_eq!(pool.get(1).unwrap().position, Vec3::zero());
    assert_eq!(handler.get_accumulator(), hundredth());
    handler.update(&mut pool, Fixed::from_int(-1));
    assert_eq!(pool.get(1).unwrap().position, Vec3::zero());
    assert_eq!(handler.get_accumulator(), raw(-990_000_000));
}

#[test]
fn driver_with_a_step_of_zero_takes_no_step() {
    let mut handler = PhysicsHandler::new(Fixed::one(), Fixed::zero());
    let mut pool = ObjectPool::new();
    pool.push(body(0, 1, 1));
    handler.update(&mut pool, Fixed::from_int(5));
    assert_eq!(pool.get(1).unwrap().position, Vec3::zero());
    assert_eq!(handler.get_accumulator(), Fixed::from_int(5));
    let mut backward = PhysicsHandler::new(Fixed::one(), Fixed::from_int(-1));
    backward.update(&mut pool, Fixed::from_int(5));
    assert_eq!(pool.get(1).unwrap().position, Vec3::zero());
    assert_eq!(backward.get_accumulator(), Fixed::from_int(5));
}

#[test]
fn two_bodies_fall_together_and_merge_once() {
    let handler = PhysicsHandler::new(Fixed::one(), hundredth());
    let mut pool = ObjectPool::new();
    pool.push(body(0, 10, 0));
    pool.push(body(5, 10, 0));
    let mut steps = 0;
    let mut gap_before = 5_000_000_000i64;
    while pool.len() == 2 {
        handler.update_objects(&mut pool);
        steps += 1;
        assert!(steps < 100_000);
        if pool.len() == 2 {
            let gap = pool.get(2).unwrap().position.x.raw - pool.get(1).unwrap().position.x.raw;
            assert!(gap < gap_before);
            assert!(gap >= 2_000_000_000);
            gap_before = gap;
        }
    }
    assert!(gap_before < 2_100_000_000);
    assert_eq!(ids(&pool), vec![3]);
    assert_eq!(pool.counter(), 3);
    let merged = pool.get(3).unwrap();
    assert_eq!(merged.mass, Fixed::from_int(20));
    assert_eq!(merged.radius, Fixed::from_int(2));
    assert_eq!(merged.velocity, Vec3::zero());
    for _ in 0..100 {
        handler.update_objects(&mut pool);
    }
    assert_eq!(ids(&pool), vec![3]);
    assert_eq!(pool.get(3).unwrap().mass, Fixed::from_int(20));
}

#[test]
fn pending_steps_counts_what_the_driver_will_take() {
    let mut handler = PhysicsHandler::default();
    assert_eq!(handler.pending_steps(raw(35_000_000)), 3);
    assert_eq!(handler.pending_steps(hundredth()), 0);
    assert_eq!(handler.pending_steps(raw(10_000_001)), 1);
    assert_eq!(handler.pending_steps(raw(20_000_000)), 1);
    assert_eq!(handler.pending_steps(raw(20_000_001)), 2);
    assert_eq!(handler.pending_steps(Fixed::from_int(-4)), 0);
    let mut pool = ObjectPool::new();
    pool.push(body(0, 1, 1));
    handler.update(&mut pool, raw(9_000_000));
    assert_eq!(handler.pending_steps(raw(1_000_000)), 0);
    assert_eq!(handler.pending_steps(raw(1_000_001)), 1);
    let stopped = PhysicsHandler::new(Fixed::one(), Fixed::zero());
    assert_eq!(stopped.pending_steps(Fixed::from_int(9)), 0);
}

#[test]
fn position_at_the_end_of_the_range_stays_there() {
    let handler = PhysicsHandler::default();
    let mut pool = ObjectPool::new();
    pool.push(Object::new(
        vec_raw(i64::MAX - 5, i64::MIN + 5, 0),
        Vec3::from_ints(1, -1, 0),
        Fixed::one(),
        Fixed::one(),
        Color::white(),
    ));
    handler.update_objects(&mut pool);
    assert_eq!(pool.get(1).unwrap().position, vec_raw(i64::MAX, i64::MIN, 0));
    handler.update_objects(&mut pool);
    assert_eq!(pool.get(1).unwrap().position, vec_raw(i64::MAX, i64::MIN, 0));
}
