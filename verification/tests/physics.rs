use gravity_sim::fixed::Fixed;
use gravity_sim::physics::PhysicsHandler;
use gravity_sim::vector::Vec3;

fn half() -> Fixed {
    Fixed::from_raw(500_000_000)
}

#[test]
fn physics_get_grav_force() {
    assert_eq!(
        PhysicsHandler::get_grav_force(
            Fixed::from_int(1),
            Fixed::from_int(1),
            Fixed::from_int(1),
            Vec3::from_ints(1, 0, 0)
        ),
        Vec3::from_ints(1, 0, 0)
    );
    assert_eq!(
        PhysicsHandler::get_grav_force(
            Fixed::from_int(1),
            Fixed::from_int(2),
            Fixed::from_int(3),
            Vec3::from_ints(2, 0, 0)
        ),
        Vec3::new(Fixed::from_raw(1_500_000_000), Fixed::zero(), Fixed::zero())
    );
    assert_eq!(
        PhysicsHandler::get_grav_force(
            Fixed::from_int(1),
            Fixed::from_int(1),
            Fixed::from_int(1),
            Vec3::zero()
        ),
        Vec3::zero()
    );
}

#[test]
fn physics_get_veloc() {
    assert_eq!(
        PhysicsHandler::get_veloc(Vec3::one(), Fixed::from_int(1), Fixed::from_int(1)),
        Vec3::one()
    );
    assert_eq!(
        PhysicsHandler::get_veloc(Vec3::zero(), Fixed::from_int(1), Fixed::from_int(1)),
        Vec3::zero()
    );
    assert_eq!(
        PhysicsHandler::get_veloc(Vec3::from_ints(1, 0, 2), Fixed::from_int(2), Fixed::from_int(1)),
        Vec3::new(half(), Fixed::zero(), Fixed::from_int(1))
    );
}

#[test]
fn physics_get_displ() {
    assert_eq!(
        PhysicsHandler::get_displ(Vec3::one(), Fixed::from_int(1), Fixed::from_int(1)),
        Vec3::one()
    );
    assert_eq!(
        PhysicsHandler::get_displ(Vec3::zero(), Fixed::from_int(1), Fixed::from_int(1)),
        Vec3::zero()
    );
    assert_eq!(
        PhysicsHandler::get_displ(Vec3::from_ints(1, 0, 2), Fixed::from_int(2), Fixed::from_int(1)),
        Vec3::new(half(), Fixed::zero(), Fixed::from_int(1))
    );
}
