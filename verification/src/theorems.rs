//! What holds of the simulation as a whole, proved from the definitions.
use crate::fixed::{
    clamp, lemma_quotient_bracket, lemma_quotient_exact, lemma_quotient_negate,
    lemma_quotient_sign, lemma_quotient_zero, quotient, Fixed, SCALE,
};
use crate::object::{is_forecast, sample_state, Object, PoolView, TrajectoryView};
use crate::physics::{
    advanced, advanced_by, all_stepped, collider_from, collides, field, grav_force,
    lemma_advanced_by, lemma_collider, lemma_partner, merged, net_force, obj_veloc, partner_from,
    resolved, stepped, veloc,
};
use crate::vector::{lemma_length, lemma_square_sum_zero, Vec3};
use vstd::prelude::*;

verus! {

/// Whether `a` lies on the side of zero on which `b` lies; where `b` is zero,
/// whether `a` is zero too.
pub open spec fn same_side(a: Fixed, b: Fixed) -> bool {
    &&& b.raw > 0 ==> a.raw >= 0
    &&& b.raw < 0 ==> a.raw <= 0
    &&& b.raw == 0 ==> a.raw == 0
}

/// A product with a factor that is not negative stays on the side of the
/// other factor.
pub proof fn lemma_times_side(a: Fixed, b: Fixed)
    requires
        b.raw >= 0,
    ensures
        same_side(a.times(b), a),
{
    let p = a.raw * b.raw;
    assert((a.raw > 0 ==> p >= 0) && (a.raw < 0 ==> p <= 0) && (a.raw == 0 ==> p == 0))
        by (nonlinear_arith)
        requires
            p == a.raw * b.raw,
            b.raw >= 0,
    ;
    lemma_quotient_sign(p, SCALE as int);
}

/// A product of scalars that are not negative is the product of their
/// values, rounded down to the next billionth, unless it is at the bound of
/// the range.
pub proof fn lemma_times_bracket(a: Fixed, b: Fixed)
    requires
        a.raw >= 0,
        b.raw >= 0,
    ensures
        a.times(b).raw >= 0,
        a.times(b).raw < i64::MAX ==> a.times(b).raw * SCALE <= a.raw * b.raw < (a.times(b).raw
            + 1) * SCALE,
{
    let p = a.raw * b.raw;
    assert(p >= 0) by (nonlinear_arith)
        requires
            p == a.raw * b.raw,
            a.raw >= 0,
            b.raw >= 0,
    ;
    lemma_quotient_bracket(p, SCALE as int);
}

/// Multiplying by a whole number is exact: nothing is rounded.
pub proof fn lemma_times_whole(a: Fixed, n: int)
    requires
        i64::MIN <= n * SCALE <= i64::MAX,
    ensures
        a.times(Fixed { raw: (n * SCALE) as i64 }).raw == clamp(a.raw * n),
{
    assert(a.raw * (n * SCALE) == (a.raw * n) * SCALE) by (nonlinear_arith);
    lemma_quotient_exact(a.raw * n, SCALE as int);
}

/// Gravity draws the first body toward the second: along every axis the
/// force points the way the displacement points, and it vanishes along an
/// axis on which the bodies are level. This holds wherever the product of
/// the constant and the two masses is not negative.
pub proof fn lemma_force_direction(m1: Fixed, m2: Fixed, constant: Fixed, dist: Vec3)
    requires
        constant.times(m1).times(m2).raw >= 0,
    ensures
        same_side(grav_force(m1, m2, constant, dist).x, dist.x),
        same_side(grav_force(m1, m2, constant, dist).y, dist.y),
        same_side(grav_force(m1, m2, constant, dist).z, dist.z),
{
    if dist != Vec3::zero() {
        let strength = constant.times(m1).times(m2);
        let pull = field(strength, dist);
        let len = dist.spec_length();
        lemma_square_sum_zero(dist);
        lemma_field_inverse_square(strength, dist);
        let dir = dist.normalized();
        if len != 0 {
            lemma_length(dist);
            lemma_unit_side(dist.x, len);
            lemma_unit_side(dist.y, len);
            lemma_unit_side(dist.z, len);
        }
        lemma_times_side(dir.x, pull);
        lemma_times_side(dir.y, pull);
        lemma_times_side(dir.z, pull);
    }
}

/// A component of a direction lies on the side of the component that it was
/// made from.
pub proof fn lemma_unit_side(c: Fixed, len: int)
    requires
        len > 0,
    ensures
        same_side(Vec3::unit_component(c, len), c),
{
    lemma_quotient_sign(c.raw * SCALE, len);
}

/// The strength of the pull falls with the square of the distance: the
/// pull times the squared distance gives back the combined strength of the
/// masses, up to what rounding down has taken. Nothing is lost but the
/// rounding, unless the pull is at the bound of the range.
pub proof fn lemma_field_inverse_square(strength: Fixed, dist: Vec3)
    requires
        strength.raw >= 0,
        dist != Vec3::zero(),
    ensures
        field(strength, dist).raw >= 0,
        field(strength, dist).raw < i64::MAX ==> field(strength, dist).raw
            * dist.spec_square_sum() <= strength.raw * SCALE * SCALE < (field(strength, dist).raw
            + 1) * dist.spec_square_sum(),
{
    lemma_square_sum_zero(dist);
    let d2 = dist.spec_square_sum();
    let x = dist.x.raw as int;
    let y = dist.y.raw as int;
    let z = dist.z.raw as int;
    assert(x * x >= 0 && y * y >= 0 && z * z >= 0) by (nonlinear_arith);
    let wide = strength.raw * SCALE * SCALE;
    assert(wide >= 0) by (nonlinear_arith)
        requires
            wide == strength.raw * SCALE * SCALE,
            strength.raw >= 0,
            SCALE > 0,
    ;
    lemma_quotient_bracket(wide, d2);
}

/// More mass pulls harder and more distance pulls less: the pull never
/// falls when the combined strength of the masses grows, nor when the bodies
/// come closer.
pub proof fn lemma_field_monotone(weak: Fixed, strong: Fixed, far: Vec3, near: Vec3)
    requires
        0 <= weak.raw <= strong.raw,
        near != Vec3::zero(),
        near.spec_square_sum() <= far.spec_square_sum(),
    ensures
        field(weak, far).raw <= field(strong, near).raw,
{
    lemma_square_sum_zero(near);
    lemma_square_sum_zero(far);
    let n = near.spec_square_sum();
    let f = far.spec_square_sum();
    let x = near.x.raw as int;
    let y = near.y.raw as int;
    let z = near.z.raw as int;
    assert(x * x >= 0 && y * y >= 0 && z * z >= 0) by (nonlinear_arith);
    let low = weak.raw * SCALE * SCALE;
    let high = strong.raw * SCALE * SCALE;
    assert(0 <= low <= high) by (nonlinear_arith)
        requires
            low == weak.raw * SCALE * SCALE,
            high == strong.raw * SCALE * SCALE,
            0 <= weak.raw <= strong.raw,
            SCALE > 0,
    ;
    vstd::arithmetic::div_mod::lemma_div_is_ordered_by_denominator(low, n, f);
    vstd::arithmetic::div_mod::lemma_div_is_ordered(low, high, n);
}

/// Coincident bodies exert no force on each other, whatever their masses.
pub proof fn lemma_force_coincident(m1: Fixed, m2: Fixed, constant: Fixed)
    ensures
        grav_force(m1, m2, constant, Vec3::zero()) == Vec3::zero(),
{
}

/// A body without mass, or a span of no time, gives no change of velocity,
/// whatever the force.
pub proof fn lemma_veloc_degenerate(force: Vec3, mass: Fixed, time: Fixed)
    requires
        mass.raw == 0 || time.raw == 0,
    ensures
        veloc(force, mass, time) == Vec3::zero(),
{
}

/// Adding the zero vector changes nothing.
pub proof fn lemma_plus_zero(v: Vec3)
    ensures
        v.plus(Vec3::zero()) == v,
        Vec3::zero().plus(v) == v,
{
}

/// The zero vector stays zero when it is scaled.
pub proof fn lemma_zero_scaled(k: Fixed)
    ensures
        Vec3::zero().scaled(k) == Vec3::zero(),
{
    lemma_quotient_zero(SCALE as int);
    assert(0 * k.raw == 0);
}

/// No force gives no change of velocity.
pub proof fn lemma_veloc_of_zero(mass: Fixed, time: Fixed)
    ensures
        veloc(Vec3::zero(), mass, time) == Vec3::zero(),
{
    if mass.raw != 0 && time.raw != 0 {
        lemma_quotient_zero(mass.raw as int);
        assert(0 * SCALE == 0);
        assert(Vec3::zero().over(mass) == Vec3::zero());
        lemma_zero_scaled(time);
    }
}

/// A body exerts no force on itself: alone in its pool, one step moves it
/// along its velocity and changes nothing else, and no identifier is used
/// up. A body at rest stays where it is.
pub proof fn lemma_single_body_step(pool: PoolView, constant: Fixed, time: Fixed)
    requires
        pool.bodies.len() == 1,
    ensures
        advanced(pool, constant, time) == (PoolView {
            bodies: seq![pool.bodies[0].moved(time)],
            counter: pool.counter,
        }),
        pool.bodies[0].velocity == Vec3::zero() ==> advanced(pool, constant, time) == pool,
{
    reveal(advanced);
    let body = pool.bodies[0];
    assert(body.position.minus(body.position) == Vec3::zero());
    reveal_with_fuel(net_force, 2);
    lemma_plus_zero(Vec3::zero());
    assert(net_force(body, pool.bodies, constant, 1) == Vec3::zero());
    lemma_veloc_of_zero(body.mass, time);
    assert(obj_veloc(body, pool.bodies, constant, time) == Vec3::zero());
    lemma_plus_zero(body.velocity);
    assert(body.accelerated(Vec3::zero()) == body);
    assert(stepped(body, pool.bodies, constant, time) == body.moved(time));
    let moved = all_stepped(pool.bodies, constant, time);
    assert(moved == seq![body.moved(time)]);
    let after = PoolView { bodies: moved, ..pool };
    reveal_with_fuel(partner_from, 3);
    reveal_with_fuel(collider_from, 3);
    assert(!collides(moved[0], moved[0], None));
    assert(partner_from(moved[0], moved, None, 0) == 1);
    assert(collider_from(moved, None, 0) == 1);
    assert(resolved(after, None) == after);
    if body.velocity == Vec3::zero() {
        lemma_zero_scaled(time);
        lemma_plus_zero(body.position);
        assert(body.moved(time) == body);
        assert(moved == pool.bodies);
    }
}

/// The vector that points the other way, where no component is at the
/// lower bound of the range.
pub open spec fn opposite(v: Vec3) -> Vec3 {
    Vec3 {
        x: Fixed { raw: (-v.x.raw) as i64 },
        y: Fixed { raw: (-v.y.raw) as i64 },
        z: Fixed { raw: (-v.z.raw) as i64 },
    }
}

/// Whether the momentum of a body of mass `mass` and velocity `v` can be
/// held without saturating.
pub open spec fn momentum_fits(v: Vec3, mass: Fixed) -> bool {
    &&& i64::MIN < quotient(v.x.raw * mass.raw, SCALE as int) <= i64::MAX
    &&& i64::MIN < quotient(v.y.raw * mass.raw, SCALE as int) <= i64::MAX
    &&& i64::MIN < quotient(v.z.raw * mass.raw, SCALE as int) <= i64::MAX
}

/// Two momenta that are opposite and equal cancel.
proof fn lemma_momenta_cancel(c: Fixed, mass: Fixed)
    requires
        c.raw > i64::MIN,
        i64::MIN < quotient(c.raw * mass.raw, SCALE as int) <= i64::MAX,
    ensures
        c.times(mass).plus((Fixed { raw: (-c.raw) as i64 }).times(mass)).raw == 0,
{
    assert((-c.raw) * mass.raw == -(c.raw * mass.raw)) by (nonlinear_arith);
    lemma_quotient_negate(c.raw * mass.raw, SCALE as int);
}

/// Two bodies of equal mass that meet head-on with opposite and equal
/// velocities merge into a body at rest: the momenta cancel. The merged body
/// has the sum of the masses and lies where the first of the two lay.
pub proof fn lemma_head_on(a: Object, b: Object)
    requires
        a.mass == b.mass,
        a.velocity.x.raw > i64::MIN,
        a.velocity.y.raw > i64::MIN,
        a.velocity.z.raw > i64::MIN,
        b.velocity == opposite(a.velocity),
        momentum_fits(a.velocity, a.mass),
    ensures
        merged(a, b).velocity == Vec3::zero(),
        merged(a, b).mass.raw == clamp(2 * a.mass.raw),
        merged(a, b).position == a.position,
{
    lemma_momenta_cancel(a.velocity.x, a.mass);
    lemma_momenta_cancel(a.velocity.y, a.mass);
    lemma_momenta_cancel(a.velocity.z, a.mass);
    let total = a.velocity.scaled(a.mass).plus(b.velocity.scaled(b.mass));
    assert(total == Vec3::zero());
    let combined = a.mass.plus(b.mass);
    if combined.raw != 0 {
        lemma_quotient_zero(combined.raw as int);
        assert(0 * SCALE == 0);
        assert(Vec3::zero().over(combined) == Vec3::zero());
    }
}

/// A merge keeps the mass: the merged body weighs what the two bodies
/// weighed together, wherever that sum can be held.
pub proof fn lemma_merge_keeps_mass(a: Object, b: Object)
    requires
        i64::MIN <= a.mass.raw + b.mass.raw <= i64::MAX,
    ensures
        merged(a, b).mass.raw == a.mass.raw + b.mass.raw,
{
}

/// One pass merges at most one pair. Where two bodies collide, the pool
/// loses the two and gains the merged body under the next identifier, which
/// replaces the first colliding body and its first partner. Where none
/// collide, the pool stays as it is.
pub proof fn lemma_resolve_once(pool: PoolView, ignore: Option<usize>)
    requires
        pool.valid(),
        pool.counter < usize::MAX,
    ensures
        collider_from(pool.bodies, ignore, 0) >= pool.bodies.len() ==> resolved(pool, ignore)
            == pool,
        collider_from(pool.bodies, ignore, 0) < pool.bodies.len() ==> {
            let i = collider_from(pool.bodies, ignore, 0);
            let j = partner_from(pool.bodies[i], pool.bodies, ignore, 0);
            let after = resolved(pool, ignore);
            &&& 0 <= i < pool.bodies.len()
            &&& 0 <= j < pool.bodies.len()
            &&& collides(pool.bodies[i], pool.bodies[j], ignore)
            &&& after.counter == pool.counter + 1
            &&& after.bodies.len() == pool.bodies.len() - 1
            &&& after.holds(after.counter)
            &&& after.body(after.counter) == merged(
                pool.bodies[i],
                pool.bodies[j],
            ).clone_with_id(after.counter)
            &&& !after.holds(pool.bodies[i].id)
            &&& !after.holds(pool.bodies[j].id)
            &&& forall|id: usize|
                id != pool.bodies[i].id && id != pool.bodies[j].id && pool.holds(id)
                    ==> after.holds(id) && after.body(id) == pool.body(id)
        },
        forall|id: usize|
            resolved(pool, ignore).holds(id) ==> pool.holds(id) || id == pool.counter + 1,
{
    lemma_collider(pool.bodies, ignore, 0);
    let i = collider_from(pool.bodies, ignore, 0);
    if i < pool.bodies.len() {
        let a = pool.bodies[i];
        lemma_partner(a, pool.bodies, ignore, 0);
        let j = partner_from(a, pool.bodies, ignore, 0);
        let b = pool.bodies[j];
        let fresh = merged(a, b);
        let one = pool.pushed(fresh);
        pool.lemma_pushed(fresh);
        pool.lemma_slot(i);
        pool.lemma_slot(j);
        let two = one.without(a.id);
        one.lemma_without(a.id);
        let three = two.without(b.id);
        two.lemma_without(b.id);
        assert(resolved(pool, ignore) == three);
        assert(one.holds(a.id));
        assert(two.holds(b.id));
        assert(two.bodies.len() == one.bodies.len() - 1);
        assert(three.bodies.len() == two.bodies.len() - 1);
        let n = pool.bodies.len() as int;
        assert(one.bodies[n].id == one.counter);
        one.lemma_slot(n);
        assert forall|id: usize|
            id != a.id && id != b.id && pool.holds(id) implies three.holds(id) && three.body(id)
            == pool.body(id) by {
            assert(one.holds(id) && one.body(id) == pool.body(id));
            assert(two.holds(id) && two.body(id) == one.body(id));
        }
        assert forall|id: usize| three.holds(id) implies pool.holds(id) || id == pool.counter
            + 1 by {
            if id != b.id {
                assert(two.holds(id));
            }
            if id != a.id {
                assert(two.holds(id) ==> one.holds(id));
            }
        }
    }
}

/// Taking `a` steps and `b` more is taking `a + b` steps.
pub proof fn lemma_advanced_by_split(pool: PoolView, constant: Fixed, time: Fixed, a: nat, b: nat)
    ensures
        advanced_by(pool, constant, time, a + b) == advanced_by(
            advanced_by(pool, constant, time, a),
            constant,
            time,
            b,
        ),
    decreases b,
{
    if b > 0 {
        lemma_advanced_by_split(pool, constant, time, a, (b - 1) as nat);
        assert((a + b - 1) as nat == a + (b - 1) as nat);
    }
}

/// A step brings no body back: an identifier that the pool has given out
/// and that no body bears any more stays unused.
pub proof fn lemma_gone_stays_gone(pool: PoolView, constant: Fixed, time: Fixed, id: usize, n: nat)
    requires
        pool.valid(),
        pool.counter + n <= usize::MAX,
        id <= pool.counter,
        !pool.holds(id),
    ensures
        !advanced_by(pool, constant, time, n).holds(id),
    decreases n,
{
    if n > 0 {
        let before = advanced_by(pool, constant, time, (n - 1) as nat);
        lemma_gone_stays_gone(pool, constant, time, id, (n - 1) as nat);
        lemma_advanced_by(pool, constant, time, (n - 1) as nat);
        reveal(advanced);
        let moved = PoolView { bodies: all_stepped(before.bodies, constant, time), ..before };
        assert forall|i: int| 0 <= i < moved.bodies.len() implies moved.bodies[i].id
            == before.bodies[i].id by {}
        assert(moved.valid());
        if moved.holds(id) {
            let k = moved.slot(id);
            assert(before.bodies[k].id == id);
        }
        lemma_resolve_once(moved, None);
    }
}

/// A body that is gone after `n` steps, at or before the time of the last
/// sample, ends its forecast early: the trajectory is marked as ended and
/// has fewer points than were asked for.
pub proof fn lemma_forecast_lost(
    t: TrajectoryView,
    start: PoolView,
    id: usize,
    constant: Fixed,
    time: Fixed,
    count: nat,
    stride: nat,
    n: nat,
)
    requires
        start.valid(),
        start.counter + count * stride <= usize::MAX,
        id <= start.counter,
        stride > 0,
        count > 0,
        n <= (count - 1) * stride + 1,
        !advanced_by(start, constant, time, n).holds(id),
        is_forecast(t, start, id, constant, time, count, stride),
    ensures
        t.ended,
        t.points.len() < count,
{
    let last = ((count - 1) * stride + 1) as nat;
    assert(last <= count * stride) by (nonlinear_arith)
        requires
            last == (count - 1) * stride + 1,
            stride > 0,
            count > 0,
    ;
    let gone = advanced_by(start, constant, time, n);
    lemma_advanced_by(start, constant, time, n);
    lemma_gone_stays_gone(gone, constant, time, id, (last - n) as nat);
    lemma_advanced_by_split(start, constant, time, n, (last - n) as nat);
    assert(n + (last - n) as nat == last);
    assert(sample_state(start, constant, time, stride, (count - 1) as nat) == advanced_by(
        start,
        constant,
        time,
        last,
    ));
    if !t.ended {
        assert(sample_state(start, constant, time, stride, (count - 1) as nat).holds(id));
    }
}

/// A forecast is determined by where it starts: two trajectories that both
/// are the forecast for one body from one pool are the same.
pub proof fn lemma_forecast_unique(
    t1: TrajectoryView,
    t2: TrajectoryView,
    start: PoolView,
    id: usize,
    constant: Fixed,
    time: Fixed,
    count: nat,
    stride: nat,
)
    requires
        is_forecast(t1, start, id, constant, time, count, stride),
        is_forecast(t2, start, id, constant, time, count, stride),
    ensures
        t1.points == t2.points,
        t1.ended == t2.ended,
{
    if stride > 0 {
        let n1 = t1.points.len();
        let n2 = t2.points.len();
        let k1 = n1 as int;
        let k2 = n2 as int;
        if n1 < n2 {
            assert(sample_state(start, constant, time, stride, k1 as nat).holds(id));
        } else if n2 < n1 {
            assert(sample_state(start, constant, time, stride, k2 as nat).holds(id));
        }
        assert forall|k: int| 0 <= k < n1 implies t1.points[k] == t2.points[k] by {
            assert(sample_state(start, constant, time, stride, k as nat).holds(id));
        }
    }
    assert(t1.points =~= t2.points);
}

/// The body `o` after it has kept its velocity for `n` steps.
pub open spec fn coasted(o: Object, time: Fixed, n: nat) -> Object
    decreases n,
{
    if n == 0 {
        o
    } else {
        coasted(o, time, (n - 1) as nat).moved(time)
    }
}

/// A body alone in its pool coasts: after any number of steps the pool holds
/// that body, moved along its velocity once for each step.
pub proof fn lemma_alone_coasts(pool: PoolView, constant: Fixed, time: Fixed, n: nat)
    requires
        pool.bodies.len() == 1,
    ensures
        advanced_by(pool, constant, time, n) == (PoolView {
            bodies: seq![coasted(pool.bodies[0], time, n)],
            counter: pool.counter,
        }),
        coasted(pool.bodies[0], time, n).id == pool.bodies[0].id,
        coasted(pool.bodies[0], time, n).velocity == pool.bodies[0].velocity,
    decreases n,
{
    if n > 0 {
        lemma_alone_coasts(pool, constant, time, (n - 1) as nat);
        lemma_single_body_step(advanced_by(pool, constant, time, (n - 1) as nat), constant, time);
    } else {
        assert(pool.bodies == seq![pool.bodies[0]]);
    }
}

/// The forecast for a body that is alone in its pool never ends early, and
/// its points are the places of the coasting body.
pub proof fn lemma_forecast_alone(
    t: TrajectoryView,
    pool: PoolView,
    constant: Fixed,
    time: Fixed,
    count: nat,
    stride: nat,
)
    requires
        pool.bodies.len() == 1,
        stride > 0,
        is_forecast(t, pool, pool.bodies[0].id, constant, time, count, stride),
    ensures
        !t.ended,
        t.points.len() == count,
        forall|k: int|
            0 <= k < count ==> t.points[k] == coasted(
                pool.bodies[0],
                time,
                (k * stride + 1) as nat,
            ).position,
{
    let id = pool.bodies[0].id;
    assert forall|k: nat|
        (#[trigger] sample_state(pool, constant, time, stride, k)).holds(id) && sample_state(
            pool,
            constant,
            time,
            stride,
            k,
        ).body(id) == coasted(pool.bodies[0], time, k * stride + 1) by {
        lemma_alone_coasts(pool, constant, time, k * stride + 1);
        let state = sample_state(pool, constant, time, stride, k);
        assert(state.bodies[0].id == id);
    }
    if t.ended {
        assert(sample_state(pool, constant, time, stride, t.points.len()).holds(id));
    }
    assert forall|k: int| 0 <= k < count implies t.points[k] == coasted(
        pool.bodies[0],
        time,
        (k * stride + 1) as nat,
    ).position by {
        assert(sample_state(pool, constant, time, stride, k as nat).holds(id));
    }
}

/// Whether a coordinate that starts at `from` and grows by `by` with every
/// step can be held for `n` steps.
pub open spec fn fits(from: Fixed, by: Fixed, n: nat) -> bool {
    i64::MIN <= from.raw + n * by.raw <= i64::MAX
}

/// Whether a body can coast for `n` steps without reaching the bounds of
/// the range.
pub open spec fn coasts_freely(o: Object, time: Fixed, n: nat) -> bool {
    &&& fits(o.position.x, o.velocity.scaled(time).x, n)
    &&& fits(o.position.y, o.velocity.scaled(time).y, n)
    &&& fits(o.position.z, o.velocity.scaled(time).z, n)
}

/// A coordinate that fits after `n` steps fits after fewer steps too.
proof fn lemma_fits_before(from: Fixed, by: Fixed, n: nat, m: nat)
    requires
        fits(from, by, n),
        m <= n,
    ensures
        fits(from, by, m),
{
    assert(i64::MIN <= from.raw + m * by.raw <= i64::MAX) by (nonlinear_arith)
        requires
            i64::MIN <= from.raw + n * by.raw <= i64::MAX,
            i64::MIN <= from.raw <= i64::MAX,
            0 <= m <= n,
    ;
}

/// A body that coasts freely moves on a straight line at a constant pace:
/// after `m` steps it has moved `m` times what it moves in one step.
pub proof fn lemma_coasted_position(o: Object, time: Fixed, n: nat, m: nat)
    requires
        coasts_freely(o, time, n),
        m <= n,
    ensures
        coasted(o, time, m).velocity == o.velocity,
        coasted(o, time, m).position.x.raw == o.position.x.raw + m * o.velocity.scaled(time).x.raw,
        coasted(o, time, m).position.y.raw == o.position.y.raw + m * o.velocity.scaled(time).y.raw,
        coasted(o, time, m).position.z.raw == o.position.z.raw + m * o.velocity.scaled(time).z.raw,
    decreases m,
{
    if m > 0 {
        lemma_coasted_position(o, time, n, (m - 1) as nat);
        let pace = o.velocity.scaled(time);
        lemma_fits_before(o.position.x, pace.x, n, m);
        lemma_fits_before(o.position.y, pace.y, n, m);
        lemma_fits_before(o.position.z, pace.z, n, m);
        assert(m * pace.x.raw == (m - 1) * pace.x.raw + pace.x.raw) by (nonlinear_arith);
        assert(m * pace.y.raw == (m - 1) * pace.y.raw + pace.y.raw) by (nonlinear_arith);
        assert(m * pace.z.raw == (m - 1) * pace.z.raw + pace.z.raw) by (nonlinear_arith);
    }
}

/// The forecast for a body that is alone in its pool and coasts freely lies
/// on a straight line with its points evenly spaced: from each point to the
/// next the body moves `stride` times what it moves in one step.
pub proof fn lemma_forecast_alone_spacing(
    t: TrajectoryView,
    pool: PoolView,
    constant: Fixed,
    time: Fixed,
    count: nat,
    stride: nat,
)
    requires
        pool.bodies.len() == 1,
        stride > 0,
        coasts_freely(pool.bodies[0], time, count * stride),
        is_forecast(t, pool, pool.bodies[0].id, constant, time, count, stride),
    ensures
        !t.ended,
        t.points.len() == count,
        forall|k: int|
            0 <= k && k + 1 < count ==> {
                let pace = pool.bodies[0].velocity.scaled(time);
                &&& (#[trigger] t.points[k + 1]).x.raw - t.points[k].x.raw == stride * pace.x.raw
                &&& t.points[k + 1].y.raw - t.points[k].y.raw == stride * pace.y.raw
                &&& t.points[k + 1].z.raw - t.points[k].z.raw == stride * pace.z.raw
            },
{
    lemma_forecast_alone(t, pool, constant, time, count, stride);
    let o = pool.bodies[0];
    let pace = o.velocity.scaled(time);
    assert forall|k: int| 0 <= k && k + 1 < count implies {
        &&& (#[trigger] t.points[k + 1]).x.raw - t.points[k].x.raw == stride * pace.x.raw
        &&& t.points[k + 1].y.raw - t.points[k].y.raw == stride * pace.y.raw
        &&& t.points[k + 1].z.raw - t.points[k].z.raw == stride * pace.z.raw
    } by {
        let a = (k * stride + 1) as nat;
        let b = ((k + 1) * stride + 1) as nat;
        assert(b == a + stride && b <= count * stride) by (nonlinear_arith)
            requires
                a == k * stride + 1,
                b == (k + 1) * stride + 1,
                0 <= k,
                k + 1 < count,
                stride > 0,
        ;
        lemma_coasted_position(o, time, count * stride, a);
        lemma_coasted_position(o, time, count * stride, b);
        assert(b * pace.x.raw - a * pace.x.raw == stride * pace.x.raw) by (nonlinear_arith)
            requires
                b == a + stride,
        ;
        assert(b * pace.y.raw - a * pace.y.raw == stride * pace.y.raw) by (nonlinear_arith)
            requires
                b == a + stride,
        ;
        assert(b * pace.z.raw - a * pace.z.raw == stride * pace.z.raw) by (nonlinear_arith)
            requires
                b == a + stride,
        ;
    }
}

} // verus!
