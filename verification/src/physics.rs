//! Gravity, integration in uniform steps, and merging of overlapping bodies.
use crate::fixed::{clamp, divide, magnitude, quotient, saturate, Fixed, SCALE};
use crate::object::{Object, ObjectPool, PoolView};
use crate::vector::{lemma_square_sum_zero, Vec3};
use vstd::prelude::*;

verus! {

/// The strength of the attraction between two masses whose displacement is
/// `dist`: `strength` divided by the squared distance, rounded toward zero.
/// The distance enters without rounding.
pub open spec fn field(strength: Fixed, dist: Vec3) -> Fixed {
    Fixed { raw: clamp(quotient(strength.raw * SCALE * SCALE, dist.spec_square_sum())) as i64 }
}

/// The force that draws a body of mass `m1` toward a body of mass `m2` that
/// lies `dist` away: `constant * m1 * m2` over the squared distance, along
/// `dist`. Bodies at the same place exert no force on each other.
pub open spec fn grav_force(m1: Fixed, m2: Fixed, constant: Fixed, dist: Vec3) -> Vec3 {
    if dist == Vec3::zero() {
        Vec3::zero()
    } else {
        dist.normalized().scaled(field(constant.times(m1).times(m2), dist))
    }
}

/// The change of velocity that `force` gives a body of mass `mass` over the
/// span `time`; zero where the mass or the span is zero.
pub open spec fn veloc(force: Vec3, mass: Fixed, time: Fixed) -> Vec3 {
    if mass.raw == 0 || time.raw == 0 {
        Vec3::zero()
    } else {
        force.over(mass).scaled(time)
    }
}

/// The displacement that `force` gives a body of mass `mass` over the span
/// `time`; zero where the mass or the span is zero.
pub open spec fn displ(force: Vec3, mass: Fixed, time: Fixed) -> Vec3 {
    if mass.raw == 0 || time.raw == 0 {
        Vec3::zero()
    } else {
        force.over(mass).scaled(time).scaled(time)
    }
}

/// The sum of the forces that the first `n` of `bodies` exert on `object`.
pub open spec fn net_force(object: Object, bodies: Seq<Object>, constant: Fixed, n: int) -> Vec3
    decreases n,
{
    if n <= 0 {
        Vec3::zero()
    } else {
        net_force(object, bodies, constant, n - 1).plus(
            grav_force(
                object.mass,
                bodies[n - 1].mass,
                constant,
                bodies[n - 1].position.minus(object.position),
            ),
        )
    }
}

/// The change of velocity that all of `bodies` together give `object` in one
/// step.
pub open spec fn obj_veloc(object: Object, bodies: Seq<Object>, constant: Fixed, time: Fixed) -> Vec3 {
    veloc(net_force(object, bodies, constant, bodies.len() as int), object.mass, time)
}

/// The body that `object` becomes in one step among `bodies`: its velocity
/// changes by what they give it, and its position follows the new velocity.
pub open spec fn stepped(object: Object, bodies: Seq<Object>, constant: Fixed, time: Fixed) -> Object {
    object.accelerated(obj_veloc(object, bodies, constant, time)).moved(time)
}

/// All of `bodies` after one step, each moved by the pull of the bodies as
/// they were before the step.
pub open spec fn all_stepped(bodies: Seq<Object>, constant: Fixed, time: Fixed) -> Seq<Object> {
    Seq::new(bodies.len(), |i: int| stepped(bodies[i], bodies, constant, time))
}

/// Whether `ignore` names the identifier `id`.
pub open spec fn ignored(ignore: Option<usize>, id: usize) -> bool {
    ignore == Some(id)
}

/// Whether `a` and `b` are two bodies whose surfaces overlap, neither of
/// them set aside by `ignore`.
pub open spec fn collides(a: Object, b: Object, ignore: Option<usize>) -> bool {
    &&& a.id != b.id
    &&& !ignored(ignore, a.id)
    &&& !ignored(ignore, b.id)
    &&& a.position.closer_than(b.position, a.radius, b.radius)
}

/// The place of the first body from `from` on that collides with `a`, or the
/// number of bodies where none does.
pub open spec fn partner_from(a: Object, bodies: Seq<Object>, ignore: Option<usize>, from: int) -> int
    decreases bodies.len() - from,
{
    if from < 0 || from >= bodies.len() {
        bodies.len() as int
    } else if collides(a, bodies[from], ignore) {
        from
    } else {
        partner_from(a, bodies, ignore, from + 1)
    }
}

/// The place of the first body from `from` on that collides with another, or
/// the number of bodies where none does.
pub open spec fn collider_from(bodies: Seq<Object>, ignore: Option<usize>, from: int) -> int
    decreases bodies.len() - from,
{
    if from < 0 || from >= bodies.len() {
        bodies.len() as int
    } else if partner_from(bodies[from], bodies, ignore, 0) < bodies.len() {
        from
    } else {
        collider_from(bodies, ignore, from + 1)
    }
}

/// The heavier of two bodies; `a` where they weigh the same.
pub open spec fn heavier(a: Object, b: Object) -> Object {
    if b.mass.raw > a.mass.raw {
        b
    } else {
        a
    }
}

/// The lighter of two bodies; `b` where they weigh the same.
pub open spec fn lighter(a: Object, b: Object) -> Object {
    if b.mass.raw > a.mass.raw {
        a
    } else {
        b
    }
}

/// The velocity that keeps the momentum of two bodies in one body of their
/// combined mass; zero where the combined mass is zero.
pub open spec fn merged_velocity(a: Object, b: Object) -> Vec3 {
    if a.mass.plus(b.mass).raw == 0 {
        Vec3::zero()
    } else {
        a.velocity.scaled(a.mass).plus(b.velocity.scaled(b.mass)).over(a.mass.plus(b.mass))
    }
}

/// How far the colour of the lighter body tints that of the heavier one: the
/// ratio of their masses; zero where the heavier body has no mass.
pub open spec fn tint(a: Object, b: Object) -> Fixed {
    if heavier(a, b).mass.raw == 0 {
        Fixed::zero()
    } else {
        lighter(a, b).mass.over(heavier(a, b).mass)
    }
}

/// The body that takes the place of two colliding bodies. It has no
/// identifier yet.
pub open spec fn merged(a: Object, b: Object) -> Object {
    Object {
        id: 0,
        position: heavier(a, b).position,
        velocity: merged_velocity(a, b),
        mass: a.mass.plus(b.mass),
        radius: a.radius.plus(b.radius),
        color: heavier(a, b).color.mix(lighter(a, b).color, tint(a, b)),
    }
}

/// The pool after `a` has been merged with the first body that it collides
/// with; the pool as it is where `a` collides with none.
pub open spec fn merge_with(pool: PoolView, a: Object, ignore: Option<usize>) -> PoolView {
    let j = partner_from(a, pool.bodies, ignore, 0);
    if j < pool.bodies.len() {
        pool.pushed(merged(a, pool.bodies[j])).without(a.id).without(pool.bodies[j].id)
    } else {
        pool
    }
}

/// The pool after its first colliding pair has been merged; the pool as it
/// is where no two bodies collide.
pub open spec fn resolved(pool: PoolView, ignore: Option<usize>) -> PoolView {
    let i = collider_from(pool.bodies, ignore, 0);
    if i < pool.bodies.len() {
        merge_with(pool, pool.bodies[i], ignore)
    } else {
        pool
    }
}

/// The pool after one step: every body moved, and the first colliding pair
/// merged.
#[verifier::opaque]
pub open spec fn advanced(pool: PoolView, constant: Fixed, time: Fixed) -> PoolView {
    resolved(PoolView { bodies: all_stepped(pool.bodies, constant, time), ..pool }, None)
}

/// The pool after `n` steps.
pub open spec fn advanced_by(pool: PoolView, constant: Fixed, time: Fixed, n: nat) -> PoolView
    decreases n,
{
    if n == 0 {
        pool
    } else {
        advanced(advanced_by(pool, constant, time, (n - 1) as nat), constant, time)
    }
}

/// The number of whole steps that are due when `acc` is owed and one step
/// spans `step`: steps are taken for as long as more than one step is owed.
pub open spec fn steps_due(acc: int, step: int) -> nat
    decreases acc,
{
    if step > 0 && acc > step {
        1 + steps_due(acc - step, step)
    } else {
        0
    }
}

/// The number of steps that are due, in closed form: where more than one
/// step is owed, one step less than the steps that fit into what is owed,
/// rounded up.
pub proof fn lemma_steps_due(acc: int, step: int)
    ensures
        steps_due(acc, step) == (if step > 0 && acc > step {
            (acc - 1) / step
        } else {
            0
        }),
    decreases acc,
{
    if step > 0 && acc > step {
        lemma_steps_due(acc - step, step);
        if acc - step > step {
            assert((acc - 1) / step == (acc - step - 1) / step + 1) by (nonlinear_arith)
                requires
                    step > 0,
                    acc - step - 1 >= 0,
            ;
        } else {
            assert((acc - 1) / step == 1) by (nonlinear_arith)
                requires
                    step > 0,
                    step <= acc - 1 < 2 * step,
            ;
        }
    }
}

/// A merge keeps the pool valid and uses up one identifier.
pub proof fn lemma_merge_with(pool: PoolView, a: Object, ignore: Option<usize>)
    requires
        pool.valid(),
        pool.counter < usize::MAX,
    ensures
        merge_with(pool, a, ignore).valid(),
        pool.counter <= merge_with(pool, a, ignore).counter <= pool.counter + 1,
{
    let j = partner_from(a, pool.bodies, ignore, 0);
    if j < pool.bodies.len() {
        lemma_partner(a, pool.bodies, ignore, 0);
        let fresh = merged(a, pool.bodies[j]);
        pool.lemma_pushed(fresh);
        pool.pushed(fresh).lemma_without(a.id);
        pool.pushed(fresh).without(a.id).lemma_without(pool.bodies[j].id);
    }
}

/// What `partner_from` finds is a body that collides with `a`, and no body
/// between `from` and that place does.
pub proof fn lemma_partner(a: Object, bodies: Seq<Object>, ignore: Option<usize>, from: int)
    requires
        0 <= from,
    ensures
        from <= partner_from(a, bodies, ignore, from) || partner_from(a, bodies, ignore, from)
            == bodies.len(),
        partner_from(a, bodies, ignore, from) <= bodies.len(),
        partner_from(a, bodies, ignore, from) < bodies.len() ==> collides(
            a,
            bodies[partner_from(a, bodies, ignore, from)],
            ignore,
        ),
        forall|k: int|
            from <= k < partner_from(a, bodies, ignore, from) ==> !collides(a, bodies[k], ignore),
    decreases bodies.len() - from,
{
    if from < bodies.len() && !collides(a, bodies[from], ignore) {
        lemma_partner(a, bodies, ignore, from + 1);
    }
}

/// What `collider_from` finds is a body that collides with another, and no
/// body between `from` and that place does.
pub proof fn lemma_collider(bodies: Seq<Object>, ignore: Option<usize>, from: int)
    requires
        0 <= from,
    ensures
        from <= collider_from(bodies, ignore, from) || collider_from(bodies, ignore, from)
            == bodies.len(),
        collider_from(bodies, ignore, from) <= bodies.len(),
        collider_from(bodies, ignore, from) < bodies.len() ==> partner_from(
            bodies[collider_from(bodies, ignore, from)],
            bodies,
            ignore,
            0,
        ) < bodies.len(),
        forall|k: int|
            from <= k < collider_from(bodies, ignore, from) ==> partner_from(
                bodies[k],
                bodies,
                ignore,
                0,
            ) == bodies.len(),
    decreases bodies.len() - from,
{
    if from < bodies.len() {
        lemma_partner(bodies[from], bodies, ignore, 0);
        if partner_from(bodies[from], bodies, ignore, 0) >= bodies.len() {
            lemma_collider(bodies, ignore, from + 1);
        }
    }
}

/// Resolving keeps the pool valid and uses up at most one identifier.
pub proof fn lemma_resolved(pool: PoolView, ignore: Option<usize>)
    requires
        pool.valid(),
        pool.counter < usize::MAX,
    ensures
        resolved(pool, ignore).valid(),
        pool.counter <= resolved(pool, ignore).counter <= pool.counter + 1,
{
    let i = collider_from(pool.bodies, ignore, 0);
    if i < pool.bodies.len() {
        lemma_collider(pool.bodies, ignore, 0);
        lemma_merge_with(pool, pool.bodies[i], ignore);
    }
}

/// A step keeps the pool valid and uses up at most one identifier.
pub proof fn lemma_advanced(pool: PoolView, constant: Fixed, time: Fixed)
    requires
        pool.valid(),
        pool.counter < usize::MAX,
    ensures
        advanced(pool, constant, time).valid(),
        pool.counter <= advanced(pool, constant, time).counter <= pool.counter + 1,
{
    reveal(advanced);
    let moved = PoolView { bodies: all_stepped(pool.bodies, constant, time), ..pool };
    assert forall|i: int| 0 <= i < moved.bodies.len() implies moved.bodies[i].id
        == pool.bodies[i].id by {}
    assert(moved.valid());
    lemma_resolved(moved, None);
}

/// Any number of steps keeps the pool valid and uses up at most one
/// identifier for each step.
pub proof fn lemma_advanced_by(pool: PoolView, constant: Fixed, time: Fixed, n: nat)
    requires
        pool.valid(),
        pool.counter + n <= usize::MAX,
    ensures
        advanced_by(pool, constant, time, n).valid(),
        pool.counter <= advanced_by(pool, constant, time, n).counter <= pool.counter + n,
    decreases n,
{
    if n > 0 {
        lemma_advanced_by(pool, constant, time, (n - 1) as nat);
        lemma_advanced(advanced_by(pool, constant, time, (n - 1) as nat), constant, time);
    }
}

/// Computes the strength of the attraction.
fn field_strength(strength: Fixed, dist: Vec3) -> (r: Fixed)
    requires
        dist != Vec3::zero(),
    ensures
        r == field(strength, dist),
{
    let d2: u128 = dist.square_sum();
    proof {
        lemma_square_sum_zero(dist);
    }
    let s: i128 = strength.raw as i128;
    assert(-0x1000_0000_0000_0000_0000_0000_0000_0000 <= s * 1_000_000_000_000_000_000
        <= 0x1000_0000_0000_0000_0000_0000_0000_0000) by (nonlinear_arith)
        requires
            -0x8000_0000_0000_0000 <= s <= 0x8000_0000_0000_0000,
    ;
    let wide: i128 = s * 1_000_000_000_000_000_000;
    assert(wide == strength.raw * SCALE * SCALE) by (nonlinear_arith)
        requires
            wide == s * 1_000_000_000_000_000_000,
            s == strength.raw,
            SCALE == 1_000_000_000,
    ;
    if d2 > 0x1000_0000_0000_0000_0000_0000_0000_0000 {
        assert(magnitude(wide as int) / (d2 as int) == 0) by (nonlinear_arith)
            requires
                0 <= magnitude(wide as int) < d2,
        ;
        Fixed::zero()
    } else {
        Fixed { raw: saturate(divide(wide, d2 as i128)) }
    }
}

/// The constants of a simulation and the time that it still owes.
#[derive(Clone, Copy)]
pub struct PhysicsHandler {
    grav_const: Fixed,
    timestep: Fixed,
    accumulator: Fixed,
}

impl PhysicsHandler {
    /// The gravitational constant.
    pub closed spec fn grav_const(&self) -> Fixed {
        self.grav_const
    }

    /// The span of one step.
    pub closed spec fn timestep(&self) -> Fixed {
        self.timestep
    }

    /// The time that has come in and has not yet been simulated.
    pub closed spec fn accumulator(&self) -> Fixed {
        self.accumulator
    }

    /// A handler with the given constant and step, which owes no time.
    pub fn new(grav_const: Fixed, timestep: Fixed) -> (r: PhysicsHandler)
        ensures
            r.grav_const() == grav_const,
            r.timestep() == timestep,
            r.accumulator() == Fixed::zero(),
    {
        PhysicsHandler { grav_const, timestep, accumulator: Fixed::zero() }
    }

    /// The span of one step.
    pub fn get_timestep(&self) -> (r: Fixed)
        ensures
            r == self.timestep(),
    {
        self.timestep
    }

    /// The gravitational constant.
    pub fn get_grav_const(&self) -> (r: Fixed)
        ensures
            r == self.grav_const(),
    {
        self.grav_const
    }

    /// The time that has come in and has not yet been simulated.
    pub fn get_accumulator(&self) -> (r: Fixed)
        ensures
            r == self.accumulator(),
    {
        self.accumulator
    }

    /// The number of steps that `update` takes when the frame time `dt`
    /// comes in.
    pub fn pending_steps(&self, dt: Fixed) -> (n: u64)
        ensures
            n == steps_due(self.accumulator().plus(dt).raw as int, self.timestep().raw as int),
    {
        let owed: i64 = self.accumulator.plus(dt).raw;
        let step: i64 = self.timestep.raw;
        proof {
            lemma_steps_due(owed as int, step as int);
        }
        if step > 0 && owed > step {
            let n: i64 = (owed - 1) / step;
            assert(0 <= n <= owed - 1) by (nonlinear_arith)
                requires
                    n == (owed - 1) / (step as int),
                    step > 0,
                    owed - 1 >= 0,
            ;
            n as u64
        } else {
            0
        }
    }

    /// Computes the force that draws a body of mass `m1` toward a body of
    /// mass `m2` that lies `dist` away.
    pub fn get_grav_force(m1: Fixed, m2: Fixed, constant: Fixed, dist: Vec3) -> (r: Vec3)
        ensures
            r == grav_force(m1, m2, constant, dist),
            dist == Vec3::zero() ==> r == Vec3::zero(),
    {
        if dist.is_zero() {
            return Vec3::zero();
        }
        let force: Fixed = field_strength(constant.times(m1).times(m2), dist);
        let dir: Vec3 = dist.normalized();
        dir.scaled(force)
    }

    /// Computes the change of velocity that `force` gives a body of mass
    /// `mass` over the span `time`.
    pub fn get_veloc(force: Vec3, mass: Fixed, time: Fixed) -> (r: Vec3)
        ensures
            r == veloc(force, mass, time),
            mass.raw == 0 || time.raw == 0 ==> r == Vec3::zero(),
    {
        if mass.is_zero() || time.is_zero() {
            return Vec3::zero();
        }
        force.over(mass).scaled(time)
    }

    /// Computes the displacement that `force` gives a body of mass `mass`
    /// over the span `time`.
    pub fn get_displ(force: Vec3, mass: Fixed, time: Fixed) -> (r: Vec3)
        ensures
            r == displ(force, mass, time),
            mass.raw == 0 || time.raw == 0 ==> r == Vec3::zero(),
    {
        if mass.is_zero() || time.is_zero() {
            return Vec3::zero();
        }
        force.over(mass).scaled(time).scaled(time)
    }

    /// Computes the change of velocity that the bodies of `objects` together
    /// give `object` in one step.
    pub fn get_obj_veloc(&self, object: &Object, objects: &ObjectPool) -> (r: Vec3)
        ensures
            r == obj_veloc(*object, objects@.bodies, self.grav_const(), self.timestep()),
    {
        let bodies: &Vec<Object> = objects.iter();
        let n: usize = bodies.len();
        let mut force: Vec3 = Vec3::zero();
        let mut i: usize = 0;
        while i < n
            invariant
                i <= n,
                n == bodies@.len(),
                force == net_force(*object, bodies@, self.grav_const(), i as int),
            decreases n - i,
        {
            let other: &Object = &bodies[i];
            force = force.plus(
                Self::get_grav_force(
                    object.mass,
                    other.mass,
                    self.grav_const,
                    other.position.minus(object.position),
                ),
            );
            i += 1;
        }
        Self::get_veloc(force, object.mass, self.timestep)
    }

    /// Builds the body that takes the place of the colliding bodies `a` and
    /// `b`: their masses and radii add up, the momentum is kept, the place is
    /// that of the heavier body (of `a` where they weigh the same), and the
    /// colour of the heavier body is tinted with that of the lighter one.
    pub fn merge(a: &Object, b: &Object) -> (r: Object)
        ensures
            r == merged(*a, *b),
            r.id == 0,
            r.mass.raw == clamp(a.mass.raw + b.mass.raw),
    {
        let combined_mass: Fixed = a.mass.plus(b.mass);
        let combined_radius: Fixed = a.radius.plus(b.radius);
        let new_veloc: Vec3 = if combined_mass.is_zero() {
            Vec3::zero()
        } else {
            a.velocity.scaled(a.mass).plus(b.velocity.scaled(b.mass)).over(combined_mass)
        };
        let largest: &Object = if b.mass.raw > a.mass.raw {
            b
        } else {
            a
        };
        let smallest: &Object = if b.mass.raw > a.mass.raw {
            a
        } else {
            b
        };
        let factor: Fixed = if largest.mass.is_zero() {
            Fixed::zero()
        } else {
            smallest.mass.over(largest.mass)
        };
        Object::new(
            largest.position,
            new_veloc,
            combined_mass,
            combined_radius,
            largest.color.mix(smallest.color, factor),
        )
    }

    /// Decides whether `a` and `b` are two bodies whose surfaces overlap,
    /// neither of them set aside by `ignore`.
    pub fn overlaps(a: &Object, b: &Object, ignore: Option<usize>) -> (r: bool)
        ensures
            r == collides(*a, *b, ignore),
    {
        if a.id == b.id {
            return false;
        }
        match ignore {
            Some(id) => {
                if id == a.id || id == b.id {
                    return false;
                }
            },
            None => {},
        }
        a.position.closer_than(b.position, a.radius, b.radius)
    }

    /// Merges `object` with the first body of `objects` that it collides
    /// with: the merged body comes in under a fresh identifier, and both
    /// bodies leave. Returns whether a merge took place.
    pub fn handle_collisions(objects: &mut ObjectPool, object: &Object, ignore: Option<usize>) -> (r:
        bool)
        requires
            old(objects).wf(),
            old(objects)@.counter < usize::MAX,
        ensures
            final(objects)@ == merge_with(old(objects)@, *object, ignore),
            r == (partner_from(*object, old(objects)@.bodies, ignore, 0) < old(
                objects,
            )@.bodies.len()),
            final(objects)@.counter == old(objects)@.counter + (if r {
                1int
            } else {
                0int
            }),
            final(objects).wf(),
    {
        proof {
            lemma_merge_with(objects@, *object, ignore);
        }
        let n: usize = objects.len();
        let mut j: usize = 0;
        while j < n
            invariant
                j <= n,
                n == objects@.bodies.len(),
                *objects == *old(objects),
                objects.wf(),
                objects@.counter < usize::MAX,
                merge_with(objects@, *object, ignore).valid(),
                partner_from(*object, objects@.bodies, ignore, 0) == partner_from(
                    *object,
                    objects@.bodies,
                    ignore,
                    j as int,
                ),
            decreases n - j,
        {
            let other: Object = objects.iter()[j];
            if Self::overlaps(object, &other, ignore) {
                let fresh: Object = Self::merge(object, &other);
                objects.push(fresh);
                objects.remove(object.id);
                objects.remove(other.id);
                return true;
            }
            j += 1;
        }
        false
    }

    /// Merges the first pair of colliding bodies, if there is one: the bodies
    /// are tried in their order, each against all others in their order, and
    /// the pass ends with the first merge. Returns whether a merge took place.
    pub fn resolve(objects: &mut ObjectPool, ignore: Option<usize>) -> (r: bool)
        requires
            old(objects).wf(),
            old(objects)@.counter < usize::MAX,
        ensures
            final(objects)@ == resolved(old(objects)@, ignore),
            r == (collider_from(old(objects)@.bodies, ignore, 0) < old(objects)@.bodies.len()),
            final(objects)@.counter == old(objects)@.counter + (if r {
                1int
            } else {
                0int
            }),
            final(objects).wf(),
    {
        let snapshot: ObjectPool = objects.clone();
        let n: usize = snapshot.len();
        let mut i: usize = 0;
        while i < n
            invariant
                i <= n,
                n == objects@.bodies.len(),
                objects@ == old(objects)@,
                snapshot@ == objects@,
                objects.wf(),
                objects@.counter < usize::MAX,
                collider_from(objects@.bodies, ignore, 0) == collider_from(
                    objects@.bodies,
                    ignore,
                    i as int,
                ),
            decreases n - i,
        {
            let body: Object = snapshot.iter()[i];
            if Self::handle_collisions(objects, &body, ignore) {
                return true;
            }
            i += 1;
        }
        false
    }

    /// Advances `objects` by one step. Every body is first given the change
    /// of velocity that the bodies, as they were before the step, exert on
    /// it, and moves on with its new velocity; the first colliding pair is
    /// merged afterwards.
    pub fn update_objects(&self, objects: &mut ObjectPool)
        requires
            old(objects).wf(),
            old(objects)@.counter < usize::MAX,
        ensures
            final(objects)@ == advanced(old(objects)@, self.grav_const(), self.timestep()),
            old(objects)@.counter <= final(objects)@.counter <= old(objects)@.counter + 1,
            final(objects).wf(),
    {
        proof {
            lemma_advanced(objects@, self.grav_const(), self.timestep());
        }
        let mut next: ObjectPool = objects.clone();
        let n: usize = objects.len();
        let mut i: usize = 0;
        while i < n
            invariant
                i <= n,
                n == objects@.bodies.len(),
                *objects == *old(objects),
                next.wf(),
                next@.counter == objects@.counter,
                next@.bodies.len() == n,
                forall|k: int|
                    0 <= k < i ==> next@.bodies[k] == stepped(
                        objects@.bodies[k],
                        objects@.bodies,
                        self.grav_const(),
                        self.timestep(),
                    ),
                forall|k: int| i <= k < n ==> next@.bodies[k] == objects@.bodies[k],
            decreases n - i,
        {
            let body: Object = objects.iter()[i];
            let velocity: Vec3 = body.velocity.plus(self.get_obj_veloc(&body, objects));
            let position: Vec3 = body.position.plus(velocity.scaled(self.timestep));
            next.replace(i, Object { position, velocity, ..body });
            i += 1;
        }
        assert(next@.bodies == all_stepped(
            objects@.bodies,
            self.grav_const(),
            self.timestep(),
        ));
        *objects = next;
        Self::resolve(objects, None);
        proof {
            reveal(advanced);
        }
    }

    /// Takes in the frame time `dt` and advances `objects` by as many whole
    /// steps as are due: a step is taken for as long as more than one step is
    /// owed. What is left stays owed.
    pub fn update(&mut self, objects: &mut ObjectPool, dt: Fixed)
        requires
            old(objects).wf(),
            old(objects)@.counter + steps_due(
                old(self).accumulator().plus(dt).raw as int,
                old(self).timestep().raw as int,
            ) <= usize::MAX,
        ensures
            final(self).grav_const() == old(self).grav_const(),
            final(self).timestep() == old(self).timestep(),
            final(objects)@ == advanced_by(
                old(objects)@,
                old(self).grav_const(),
                old(self).timestep(),
                steps_due(
                    old(self).accumulator().plus(dt).raw as int,
                    old(self).timestep().raw as int,
                ),
            ),
            final(self).accumulator().raw == old(self).accumulator().plus(dt).raw - steps_due(
                old(self).accumulator().plus(dt).raw as int,
                old(self).timestep().raw as int,
            ) * old(self).timestep().raw,
            old(self).timestep().raw > 0 ==> final(self).accumulator().raw <= old(
                self,
            ).timestep().raw,
            old(objects)@.counter <= final(objects)@.counter <= old(objects)@.counter + steps_due(
                old(self).accumulator().plus(dt).raw as int,
                old(self).timestep().raw as int,
            ),
            final(objects).wf(),
    {
        proof {
            lemma_advanced_by(
                objects@,
                self.grav_const(),
                self.timestep(),
                steps_due(
                    self.accumulator().plus(dt).raw as int,
                    self.timestep().raw as int,
                ),
            );
        }
        self.accumulator = self.accumulator.plus(dt);
        let ghost start = self.accumulator.raw as int;
        let ghost step = self.timestep.raw as int;
        let ghost due = steps_due(start, step);
        let ghost mut done: nat = 0;
        while self.timestep.raw > 0 && self.accumulator.raw > self.timestep.raw
            invariant
                self.grav_const() == old(self).grav_const(),
                self.timestep() == old(self).timestep(),
                step == self.timestep().raw,
                objects.wf(),
                done + steps_due(self.accumulator().raw as int, step) == due,
                self.accumulator().raw == start - done * step,
                objects@ == advanced_by(
                    old(objects)@,
                    self.grav_const(),
                    self.timestep(),
                    done,
                ),
                objects@.counter + steps_due(self.accumulator().raw as int, step) <= usize::MAX,
            decreases self.accumulator().raw,
        {
            self.update_objects(objects);
            self.accumulator = Fixed::from_raw(self.accumulator.raw - self.timestep.raw);
            proof {
                assert((done + 1) * step == done * step + step) by (nonlinear_arith);
                done = done + 1;
            }
        }
    }
}

impl Default for PhysicsHandler {
    /// The constant one and a step of one hundredth.
    fn default() -> (r: PhysicsHandler)
        ensures
            r.grav_const() == Fixed::one(),
            r.timestep().raw == 10_000_000,
            r.accumulator() == Fixed::zero(),
    {
        PhysicsHandler {
            grav_const: Fixed::one(),
            timestep: Fixed::from_raw(10_000_000),
            accumulator: Fixed::zero(),
        }
    }
}

} // verus!
