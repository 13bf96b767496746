//! Bodies, the pool that owns them, and forecast trajectories.
use crate::color::Color;
use crate::fixed::Fixed;
use crate::physics::{advanced_by, lemma_advanced_by, PhysicsHandler};
use crate::vector::Vec3;
use std::collections::HashMap;
use vstd::prelude::*;

verus! {

/// A point mass. The identifier zero marks a body that no pool has taken in.
#[derive(Clone, Copy, PartialEq, Eq, Debug, Structural)]
pub struct Object {
    pub id: usize,
    pub position: Vec3,
    pub velocity: Vec3,
    pub mass: Fixed,
    pub radius: Fixed,
    pub color: Color,
}

impl Object {
    /// The body at rest at the centre, of mass and radius one, in white.
    pub open spec fn spec_default() -> Object {
        Object {
            id: 0,
            position: Vec3::zero(),
            velocity: Vec3::zero(),
            mass: Fixed::one(),
            radius: Fixed::one(),
            color: Color::white(),
        }
    }

    /// A body with the given attributes and no identifier yet.
    pub fn new(position: Vec3, velocity: Vec3, mass: Fixed, radius: Fixed, color: Color) -> (r:
        Object)
        ensures
            r == (Object { id: 0, position, velocity, mass, radius, color }),
    {
        Object { id: 0, position, velocity, mass, radius, color }
    }

    /// The default body, placed at `position`.
    pub fn with_pos(position: Vec3) -> (r: Object)
        ensures
            r == (Object { position, ..Object::spec_default() }),
    {
        Object::new(position, Vec3::zero(), Fixed::one(), Fixed::one(), Color::white())
    }

    /// The default body under the identifier `id`.
    pub fn with_id(id: usize) -> (r: Object)
        ensures
            r == (Object { id, ..Object::spec_default() }),
    {
        Object {
            id,
            position: Vec3::zero(),
            velocity: Vec3::zero(),
            mass: Fixed::one(),
            radius: Fixed::one(),
            color: Color::white(),
        }
    }

    /// This body under another identifier.
    pub open spec fn spec_clone_with_id(&self, id: usize) -> Object {
        Object { id, ..*self }
    }

    /// Copies this body and gives the copy the identifier `id`.
    #[verifier::when_used_as_spec(spec_clone_with_id)]
    pub fn clone_with_id(&self, id: usize) -> (r: Object)
        ensures
            r == self.spec_clone_with_id(id),
    {
        Object {
            id,
            position: self.position,
            velocity: self.velocity,
            mass: self.mass,
            radius: self.radius,
            color: self.color,
        }
    }

    /// This body moved by `translation`.
    pub open spec fn translated(self, translation: Vec3) -> Object {
        Object { position: self.position.plus(translation), ..self }
    }

    /// Moves the body by `translation`.
    pub fn translate(&mut self, translation: Vec3) -> (r: &mut Self)
        ensures
            *r == old(self).translated(translation),
            *final(self) == *final(r),
    {
        self.position = self.position.plus(translation);
        self
    }

    /// This body with `velocity` added to its own.
    pub open spec fn accelerated(self, velocity: Vec3) -> Object {
        Object { velocity: self.velocity.plus(velocity), ..self }
    }

    /// Adds `velocity` to the body's velocity.
    pub fn add_velocity(&mut self, velocity: Vec3) -> (r: &mut Self)
        ensures
            *r == old(self).accelerated(velocity),
            *final(self) == *final(r),
    {
        self.velocity = self.velocity.plus(velocity);
        self
    }

    /// This body after it has kept its velocity for the span `time`.
    pub open spec fn moved(self, time: Fixed) -> Object {
        Object { position: self.position.plus(self.velocity.scaled(time)), ..self }
    }

    /// Moves the body along its velocity for the span `time`.
    pub fn update_pos(&mut self, time: Fixed) -> (r: &mut Self)
        ensures
            *r == old(self).moved(time),
            *final(self) == *final(r),
    {
        self.position = self.position.plus(self.velocity.scaled(time));
        self
    }
}

impl Default for Object {
    fn default() -> (r: Object)
        ensures
            r == Object::spec_default(),
    {
        Object::new(Vec3::zero(), Vec3::zero(), Fixed::one(), Fixed::one(), Color::white())
    }
}

/// What a pool holds: its bodies in the order in which they came, and the
/// last identifier that it gave out.
pub struct PoolView {
    pub bodies: Seq<Object>,
    pub counter: usize,
}

impl PoolView {
    /// Every body has an identifier that the pool has given out, and no two
    /// bodies share one.
    pub open spec fn valid(self) -> bool {
        &&& forall|i: int|
            0 <= i < self.bodies.len() ==> 0 < #[trigger] self.bodies[i].id <= self.counter
        &&& forall|i: int, j: int|
            0 <= i < j < self.bodies.len() ==> self.bodies[i].id != self.bodies[j].id
    }

    /// Whether a body with the identifier `id` is present.
    pub open spec fn holds(self, id: usize) -> bool {
        exists|i: int| 0 <= i < self.bodies.len() && self.bodies[i].id == id
    }

    /// The place of the body with the identifier `id`, where one is present.
    pub open spec fn slot(self, id: usize) -> int {
        choose|i: int| 0 <= i < self.bodies.len() && self.bodies[i].id == id
    }

    /// The body with the identifier `id`, where one is present.
    pub open spec fn body(self, id: usize) -> Object {
        self.bodies[self.slot(id)]
    }

    /// The pool after it has taken in `object` under a fresh identifier.
    pub open spec fn pushed(self, object: Object) -> PoolView {
        PoolView {
            bodies: self.bodies.push(object.clone_with_id((self.counter + 1) as usize)),
            counter: (self.counter + 1) as usize,
        }
    }

    /// The pool without the body with the identifier `id`.
    pub open spec fn without(self, id: usize) -> PoolView {
        if self.holds(id) {
            PoolView { bodies: self.bodies.remove(self.slot(id)), ..self }
        } else {
            self
        }
    }

    /// The pool without its last body.
    pub open spec fn popped(self) -> PoolView {
        if self.bodies.len() > 0 {
            PoolView { bodies: self.bodies.drop_last(), ..self }
        } else {
            self
        }
    }

    /// Whether the surface of `object` lies within `radius` of `pos`.
    pub open spec fn reaches(object: Object, pos: Vec3, radius: Fixed) -> bool {
        object.position.within(pos, object.radius, radius)
    }

    /// The bodies whose surface lies within `radius` of `pos`, in their order.
    pub open spec fn in_area(self, pos: Vec3, radius: Fixed) -> PoolView {
        PoolView {
            bodies: self.bodies.filter(PoolView::area_test(pos, radius)),
            ..self
        }
    }

    /// The test by which `in_area` chooses.
    pub open spec fn area_test(pos: Vec3, radius: Fixed) -> spec_fn(Object) -> bool {
        |o: Object| PoolView::reaches(o, pos, radius)
    }

    /// Choosing among the bodies of a valid pool leaves a valid pool.
    pub proof fn lemma_in_area(self, pos: Vec3, radius: Fixed)
        requires
            self.valid(),
        ensures
            self.in_area(pos, radius).valid(),
        decreases self.bodies.len(),
    {
        let test = PoolView::area_test(pos, radius);
        let chosen = self.bodies.filter(test);
        if self.bodies.len() > 0 {
            let rest = PoolView { bodies: self.bodies.drop_last(), ..self };
            let last = self.bodies.last();
            rest.lemma_in_area(pos, radius);
            let kept = rest.bodies.filter(test);
            assert(self.bodies == rest.bodies.push(last));
            rest.bodies.lemma_filter_push(last, test);
            if test(last) {
                assert forall|i: int| 0 <= i < kept.len() implies kept[i].id != last.id by {
                    assert(kept.contains(kept[i]));
                    rest.bodies.lemma_filter_contains_rev(test, kept[i]);
                    let k = choose|k: int| 0 <= k < rest.bodies.len() && rest.bodies[k] == kept[i];
                    assert(self.bodies[k].id != self.bodies[self.bodies.len() - 1].id);
                }
                assert(chosen == kept.push(last));
                assert(last == self.bodies[self.bodies.len() - 1]);
                assert forall|i: int| 0 <= i < chosen.len() implies 0 < #[trigger] chosen[i].id
                    <= self.counter by {
                    if i < kept.len() {
                        assert(chosen[i] == rest.in_area(pos, radius).bodies[i]);
                    }
                }
                assert forall|i: int, j: int| 0 <= i < j < chosen.len() implies chosen[i].id
                    != chosen[j].id by {
                    if j < kept.len() {
                        assert(chosen[i] == rest.in_area(pos, radius).bodies[i]);
                        assert(chosen[j] == rest.in_area(pos, radius).bodies[j]);
                    }
                }
            } else {
                assert(chosen == kept);
                assert(self.in_area(pos, radius) == rest.in_area(pos, radius));
            }
        } else {
            reveal(Seq::filter);
        }
    }

    /// In a valid pool an identifier names one place only.
    pub proof fn lemma_slot(self, i: int)
        requires
            self.valid(),
            0 <= i < self.bodies.len(),
        ensures
            self.holds(self.bodies[i].id),
            self.slot(self.bodies[i].id) == i,
            self.body(self.bodies[i].id) == self.bodies[i],
    {
        let id = self.bodies[i].id;
        let k = self.slot(id);
        assert(0 <= k < self.bodies.len() && self.bodies[k].id == id);
        if k < i {
            assert(self.bodies[k].id != self.bodies[i].id);
        } else if i < k {
            assert(self.bodies[i].id != self.bodies[k].id);
        }
    }

    /// Taking a body in keeps the pool valid, and nothing that was present
    /// changes.
    pub proof fn lemma_pushed(self, object: Object)
        requires
            self.valid(),
            self.counter < usize::MAX,
        ensures
            self.pushed(object).valid(),
            self.pushed(object).holds((self.counter + 1) as usize),
            !self.holds((self.counter + 1) as usize),
            forall|id: usize| self.holds(id) ==> self.pushed(object).holds(id)
                && self.pushed(object).body(id) == self.body(id),
            forall|id: usize|
                self.pushed(object).holds(id) ==> self.holds(id) || id == self.counter + 1,
    {
        let after = self.pushed(object);
        let n = self.bodies.len() as int;
        assert(after.bodies[n].id == self.counter + 1);
        assert forall|id: usize| self.holds(id) implies after.holds(id) && after.body(id)
            == self.body(id) by {
            let k = self.slot(id);
            self.lemma_slot(k);
            assert(after.bodies[k] == self.bodies[k]);
            after.lemma_slot(k);
        }
        assert forall|id: usize| after.holds(id) implies self.holds(id) || id == self.counter
            + 1 by {
            let k = after.slot(id);
            assert(0 <= k < after.bodies.len() && after.bodies[k].id == id);
            if k < n {
                assert(self.bodies[k].id == id);
            }
        }
    }

    /// Removing a body keeps the pool valid, takes that identifier out, and
    /// leaves every other body as it was.
    pub proof fn lemma_without(self, id: usize)
        requires
            self.valid(),
        ensures
            self.without(id).valid(),
            !self.without(id).holds(id),
            forall|other: usize|
                other != id ==> self.without(id).holds(other) == self.holds(other),
            forall|other: usize|
                other != id && self.holds(other) ==> self.without(id).body(other) == self.body(
                    other,
                ),
    {
        let after = self.without(id);
        if self.holds(id) {
            let k = self.slot(id);
            assert(0 <= k < self.bodies.len() && self.bodies[k].id == id);
            assert forall|i: int| 0 <= i < after.bodies.len() implies after.bodies[i] == (if i
                < k {
                self.bodies[i]
            } else {
                self.bodies[i + 1]
            }) by {}
            assert(after.valid());
            if after.holds(id) {
                let j = after.slot(id);
                assert(0 <= j < after.bodies.len() && after.bodies[j].id == id);
                if j < k {
                    assert(self.bodies[j].id != self.bodies[k].id);
                } else {
                    assert(self.bodies[k].id != self.bodies[j + 1].id);
                }
            }
            assert forall|other: usize| other != id implies after.holds(other) == self.holds(
                other,
            ) by {
                if self.holds(other) {
                    let j = self.slot(other);
                    assert(0 <= j < self.bodies.len() && self.bodies[j].id == other);
                    if j < k {
                        assert(after.bodies[j].id == other);
                    } else {
                        assert(after.bodies[j - 1].id == other);
                    }
                }
                if after.holds(other) {
                    let j = after.slot(other);
                    assert(0 <= j < after.bodies.len() && after.bodies[j].id == other);
                    if j < k {
                        assert(self.bodies[j].id == other);
                    } else {
                        assert(self.bodies[j + 1].id == other);
                    }
                }
            }
            assert forall|other: usize| other != id && self.holds(other) implies after.body(
                other,
            ) == self.body(other) by {
                let j = self.slot(other);
                self.lemma_slot(j);
                if j < k {
                    after.lemma_slot(j);
                } else {
                    after.lemma_slot(j - 1);
                }
            }
        } else {
            assert(!after.holds(id));
        }
    }
}

/// The pool that owns the bodies of a simulation. It gives each body that it
/// takes in an identifier of its own, and never gives one out twice.
pub struct ObjectPool {
    objects: Vec<Object>,
    current_id: usize,
}

impl View for ObjectPool {
    type V = PoolView;

    closed spec fn view(&self) -> PoolView {
        PoolView { bodies: self.objects@, counter: self.current_id }
    }
}

impl ObjectPool {
    /// Whether the pool keeps its promise on identifiers.
    pub open spec fn wf(&self) -> bool {
        self@.valid()
    }

    /// The empty pool, which has given out no identifier yet.
    pub fn new() -> (r: ObjectPool)
        ensures
            r@.bodies.len() == 0,
            r@.counter == 0,
            r.wf(),
    {
        ObjectPool { objects: Vec::new(), current_id: 0 }
    }

    /// Takes in a copy of `object` under the next identifier and returns that
    /// identifier.
    pub fn push(&mut self, object: Object) -> (id: usize)
        requires
            old(self).wf(),
            old(self)@.counter < usize::MAX,
        ensures
            final(self)@ == old(self)@.pushed(object),
            id == old(self)@.counter + 1,
            final(self).wf(),
    {
        proof {
            self@.lemma_pushed(object);
        }
        self.current_id += 1;
        self.objects.push(object.clone_with_id(self.current_id));
        self.current_id
    }

    /// Takes the body that came last out of the pool and returns it.
    pub fn pop(&mut self) -> (r: Option<Object>)
        requires
            old(self).wf(),
        ensures
            final(self)@ == old(self)@.popped(),
            final(self).wf(),
            r == (if old(self)@.bodies.len() > 0 {
                Some(old(self)@.bodies.last())
            } else {
                None
            }),
    {
        self.objects.pop()
    }

    /// Removes the body with the identifier `id`; does nothing where no body
    /// has it.
    pub fn remove(&mut self, id: usize)
        requires
            old(self).wf(),
        ensures
            final(self)@ == old(self)@.without(id),
            final(self).wf(),
    {
        proof {
            self@.lemma_without(id);
        }
        let n: usize = self.objects.len();
        let mut i: usize = 0;
        while i < n
            invariant
                i <= n,
                n == self.objects.len(),
                *self == *old(self),
                self.wf(),
                self@.without(id).valid(),
                forall|k: int| 0 <= k < i ==> self.objects[k].id != id,
            decreases n - i,
        {
            if self.objects[i].id == id {
                proof {
                    self@.lemma_slot(i as int);
                }
                self.objects.remove(i);
                return ;
            }
            i += 1;
        }
    }

    /// Looks up the body with the identifier `id`.
    pub fn get(&self, id: usize) -> (r: Option<&Object>)
        requires
            self.wf(),
        ensures
            r.is_some() == self@.holds(id),
            r.is_some() ==> *r.unwrap() == self@.body(id),
    {
        let n: usize = self.objects.len();
        let mut i: usize = 0;
        while i < n
            invariant
                i <= n,
                n == self.objects.len(),
                self.wf(),
                forall|k: int| 0 <= k < i ==> self.objects[k].id != id,
            decreases n - i,
        {
            if self.objects[i].id == id {
                proof {
                    self@.lemma_slot(i as int);
                }
                return Some(&self.objects[i]);
            }
            i += 1;
        }
        None
    }

    /// The last identifier that the pool has given out; zero where it has
    /// given out none.
    pub fn counter(&self) -> (r: usize)
        ensures
            r == self@.counter,
    {
        self.current_id
    }

    /// Copies every body whose surface lies within `radius` of `pos` into a
    /// new pool, in the same order. The new pool goes on counting where this
    /// one stands.
    pub fn get_all_in_area(&self, pos: Vec3, radius: Fixed) -> (r: ObjectPool)
        requires
            self.wf(),
        ensures
            r@ == self@.in_area(pos, radius),
            r.wf(),
    {
        proof {
            self@.lemma_in_area(pos, radius);
        }
        let ghost test = PoolView::area_test(pos, radius);
        let mut chosen: Vec<Object> = Vec::new();
        let n: usize = self.objects.len();
        let mut i: usize = 0;
        proof {
            reveal(Seq::filter);
        }
        while i < n
            invariant
                i <= n,
                n == self.objects.len(),
                test == PoolView::area_test(pos, radius),
                chosen@ == self.objects@.take(i as int).filter(test),
            decreases n - i,
        {
            let body: Object = self.objects[i];
            proof {
                self.objects@.take(i as int).lemma_filter_push(body, test);
                assert(self.objects@.take(i + 1) == self.objects@.take(i as int).push(body));
            }
            if body.position.within(pos, body.radius, radius) {
                chosen.push(body);
            }
            i += 1;
        }
        assert(self.objects@.take(n as int) == self.objects@);
        ObjectPool { objects: chosen, current_id: self.current_id }
    }

    /// The number of bodies.
    pub fn len(&self) -> (n: usize)
        ensures
            n == self@.bodies.len(),
    {
        self.objects.len()
    }

    /// The bodies in the order in which they came.
    pub fn iter(&self) -> (r: &Vec<Object>)
        ensures
            r@ == self@.bodies,
    {
        &self.objects
    }

    /// Gives the body at the place `index` the attributes of `body`. The
    /// identifier of that place stays what it was.
    pub fn replace(&mut self, index: usize, body: Object)
        requires
            old(self).wf(),
            index < old(self)@.bodies.len(),
        ensures
            final(self)@.counter == old(self)@.counter,
            final(self)@.bodies == old(self)@.bodies.update(
                index as int,
                body.clone_with_id(old(self)@.bodies[index as int].id),
            ),
            final(self).wf(),
    {
        let id: usize = self.objects[index].id;
        self.objects[index] = body.clone_with_id(id);
    }
}

impl Default for ObjectPool {
    /// The empty pool.
    fn default() -> (r: ObjectPool)
        ensures
            r@.bodies.len() == 0,
            r@.counter == 0,
            r.wf(),
    {
        ObjectPool::new()
    }
}

impl Clone for ObjectPool {
    /// An independent copy with the same bodies, identifiers and counter.
    fn clone(&self) -> (r: ObjectPool)
        ensures
            r@ == self@,
    {
        let mut copy: Vec<Object> = Vec::new();
        let n: usize = self.objects.len();
        let mut i: usize = 0;
        while i < n
            invariant
                i <= n,
                n == self.objects.len(),
                copy@ == self.objects@.take(i as int),
            decreases n - i,
        {
            copy.push(self.objects[i].clone());
            assert(self.objects@.take(i + 1) == self.objects@.take(i as int).push(
                self.objects[i as int],
            ));
            i += 1;
        }
        assert(self.objects@.take(n as int) == self.objects@);
        ObjectPool { objects: copy, current_id: self.current_id }
    }
}

/// Copies a list of points.
fn copy_points(points: &Vec<Vec3>) -> (r: Vec<Vec3>)
    ensures
        r@ == points@,
{
    let mut copy: Vec<Vec3> = Vec::new();
    let n: usize = points.len();
    let mut i: usize = 0;
    while i < n
        invariant
            i <= n,
            n == points@.len(),
            copy@ == points@.take(i as int),
        decreases n - i,
    {
        copy.push(points[i]);
        assert(points@.take(i + 1) == points@.take(i as int).push(points[i as int]));
        i += 1;
    }
    assert(points@.take(n as int) == points@);
    copy
}

/// What a trajectory holds: the sampled points in the order of time, and
/// whether the body was lost before the horizon was reached.
pub struct TrajectoryView {
    pub points: Seq<Vec3>,
    pub ended: bool,
}

/// The pool on which a forecast for `object` runs: `pool` itself where it
/// holds a body with the identifier of `object`, else `pool` with `object`
/// taken in.
pub open spec fn forecast_start(pool: PoolView, object: Object) -> PoolView {
    if pool.holds(object.id) {
        pool
    } else {
        pool.pushed(object)
    }
}

/// The identifier that a forecast for `object` follows.
pub open spec fn forecast_id(pool: PoolView, object: Object) -> usize {
    if pool.holds(object.id) {
        object.id
    } else {
        (pool.counter + 1) as usize
    }
}

/// The pool at the time of the sample number `k`, counted from zero: one
/// step after `k` strides.
pub open spec fn sample_state(
    start: PoolView,
    constant: Fixed,
    time: Fixed,
    stride: nat,
    k: nat,
) -> PoolView {
    advanced_by(start, constant, time, k * stride + 1)
}

/// Whether `t` is what sampling the body `id` gives once `taken` samples are
/// due. While the body is `live`, every sample is there. Once it is lost, the
/// trajectory is marked as ended and holds the samples before the loss.
pub open spec fn sampled_so_far(
    t: TrajectoryView,
    start: PoolView,
    id: usize,
    constant: Fixed,
    time: Fixed,
    stride: nat,
    taken: nat,
    live: bool,
) -> bool {
    &&& t.ended == !live
    &&& live ==> t.points.len() == taken
    &&& !live ==> t.points.len() < taken && !sample_state(
        start,
        constant,
        time,
        stride,
        t.points.len(),
    ).holds(id)
    &&& forall|k: int|
        0 <= k < t.points.len() ==> (#[trigger] sample_state(
            start,
            constant,
            time,
            stride,
            k as nat,
        )).holds(id) && t.points[k] == sample_state(start, constant, time, stride, k as nat).body(
            id,
        ).position
}

/// Whether `t` is the forecast for the body `id` from the pool `start`: a
/// position after the first step of each stride, `count` of them, unless the
/// body is lost at one of these times, where the trajectory ends. With a
/// stride of zero no step is taken and the trajectory is empty.
pub open spec fn is_forecast(
    t: TrajectoryView,
    start: PoolView,
    id: usize,
    constant: Fixed,
    time: Fixed,
    count: nat,
    stride: nat,
) -> bool {
    if stride == 0 {
        t.points.len() == 0 && !t.ended
    } else {
        sampled_so_far(t, start, id, constant, time, stride, count, !t.ended)
    }
}

/// The forecast path of one body.
pub struct Trajectory {
    points: Vec<Vec3>,
    has_end: bool,
}

impl View for Trajectory {
    type V = TrajectoryView;

    closed spec fn view(&self) -> TrajectoryView {
        TrajectoryView { points: self.points@, ended: self.has_end }
    }
}

impl Trajectory {
    /// The empty trajectory, not ended.
    pub fn new() -> (r: Trajectory)
        ensures
            r@.points.len() == 0,
            !r@.ended,
    {
        Trajectory { points: Vec::new(), has_end: false }
    }

    /// Appends a point.
    pub fn push(&mut self, point: Vec3) -> (r: &mut Trajectory)
        ensures
            r@.points == old(self)@.points.push(point),
            r@.ended == old(self)@.ended,
            *final(self) == *final(r),
    {
        self.points.push(point);
        self
    }

    /// Marks the trajectory as ended.
    pub fn end(&mut self) -> (r: &mut Trajectory)
        ensures
            r@.points == old(self)@.points,
            r@.ended,
            *final(self) == *final(r),
    {
        self.has_end = true;
        self
    }

    /// Whether the body was lost before the horizon was reached.
    pub fn has_end(&self) -> (r: bool)
        ensures
            r == self@.ended,
    {
        self.has_end
    }

    /// The number of points.
    pub fn len(&self) -> (n: usize)
        ensures
            n == self@.points.len(),
    {
        self.points.len()
    }

    /// The earliest point, if there is one.
    pub fn first(&self) -> (r: Option<&Vec3>)
        ensures
            r.is_some() == (self@.points.len() > 0),
            r.is_some() ==> *r.unwrap() == self@.points[0],
    {
        if self.points.len() > 0 {
            Some(&self.points[0])
        } else {
            None
        }
    }

    /// The points in the order of time.
    pub fn iter(&self) -> (r: &Vec<Vec3>)
        ensures
            r@ == self@.points,
    {
        &self.points
    }

    /// The points in the order of time, open to change.
    pub fn iter_mut(&mut self) -> (r: &mut Vec<Vec3>)
        ensures
            r@ == old(self)@.points,
            final(self)@.points == final(r)@,
            final(self)@.ended == old(self)@.ended,
    {
        &mut self.points
    }
}

impl Clone for Trajectory {
    /// An independent copy with the same points and the same mark.
    fn clone(&self) -> (r: Trajectory)
        ensures
            r@ == self@,
    {
        Trajectory { points: copy_points(&self.points), has_end: self.has_end }
    }
}

impl Object {
    /// Forecasts the path of this body among `objects`. The forecast runs on
    /// a copy of the pool, which takes this body in unless it holds a body
    /// with the same identifier. The copy is advanced by `point_count`
    /// strides of `step` steps each, and the position of the body is sampled
    /// after the first step of every stride. Where the body is gone at such
    /// a time, the trajectory is marked as ended and returned as it is.
    pub fn calculate_trajectory(
        &self,
        objects: &ObjectPool,
        physics_handler: &PhysicsHandler,
        point_count: u32,
        step: u32,
    ) -> (r: Trajectory)
        requires
            objects.wf(),
            objects@.counter + 1 + point_count * step <= usize::MAX,
        ensures
            is_forecast(
                r@,
                forecast_start(objects@, *self),
                forecast_id(objects@, *self),
                physics_handler.grav_const(),
                physics_handler.timestep(),
                point_count as nat,
                step as nat,
            ),
    {
        let mut pool: ObjectPool = objects.clone();
        let mut id: usize = self.id;
        if pool.get(id).is_none() {
            id = pool.push(self.clone());
        }
        let mut trajectory: Trajectory = Trajectory::new();
        if step == 0 {
            return trajectory;
        }
        let ghost start = pool@;
        let ghost g = physics_handler.grav_const();
        let ghost ts = physics_handler.timestep();
        let ghost stride = step as nat;
        let ghost total = (point_count * step) as nat;
        let ghost mut base: nat = 0;
        let mut k: u32 = 0;
        while k < point_count
            invariant
                k <= point_count,
                step > 0,
                stride == step,
                total == point_count * stride,
                start == forecast_start(objects@, *self),
                id == forecast_id(objects@, *self),
                start.valid(),
                start.counter + total <= usize::MAX,
                g == physics_handler.grav_const(),
                ts == physics_handler.timestep(),
                base == k * stride,
                pool.wf(),
                pool@ == advanced_by(start, g, ts, base),
                sampled_so_far(trajectory@, start, id, g, ts, stride, k as nat, true),
            decreases point_count - k,
        {
            proof {
                lemma_steps_within(k as int, stride - 1, point_count as int, stride as int);
            }
            let mut s: u32 = 0;
            while s < step
                invariant
                    k < point_count,
                    s <= step,
                    stride == step,
                    start == forecast_start(objects@, *self),
                    id == forecast_id(objects@, *self),
                    start.valid(),
                    start.counter + total <= usize::MAX,
                    base + stride <= total,
                    g == physics_handler.grav_const(),
                    ts == physics_handler.timestep(),
                    sample_state(start, g, ts, stride, k as nat) == advanced_by(
                        start,
                        g,
                        ts,
                        base + 1,
                    ),
                    pool.wf(),
                    pool@ == advanced_by(start, g, ts, base + s as nat),
                    sampled_so_far(
                        trajectory@,
                        start,
                        id,
                        g,
                        ts,
                        stride,
                        if s == 0 {
                            k as nat
                        } else {
                            (k + 1) as nat
                        },
                        true,
                    ),
                decreases step - s,
            {
                proof {
                    lemma_advanced_by(start, g, ts, base + s as nat);
                }
                physics_handler.update_objects(&mut pool);
                assert(pool@ == advanced_by(start, g, ts, base + s as nat + 1));
                if s == 0 {
                    match pool.get(id) {
                        None => {
                            let ghost before = trajectory@;
                            trajectory.end();
                            proof {
                                lemma_sample_lost(
                                    before,
                                    trajectory@,
                                    start,
                                    id,
                                    g,
                                    ts,
                                    stride,
                                    k as nat,
                                    point_count as nat,
                                );
                            }
                            return trajectory;
                        },
                        Some(body) => {
                            proof {
                                lemma_sample_taken(
                                    trajectory@,
                                    body.position,
                                    start,
                                    id,
                                    g,
                                    ts,
                                    stride,
                                    k as nat,
                                );
                            }
                            trajectory.push(body.position);
                        },
                    }
                }
                s += 1;
            }
            proof {
                assert((k + 1) * stride == k * stride + stride) by (nonlinear_arith);
                base = base + stride;
            }
            k += 1;
        }
        trajectory
    }
}

/// The trajectory `t` after one more sample has become due for the body
/// `id`, taken from `pool`. An ended trajectory stays as it is. Otherwise the
/// position of the body is appended, or the trajectory ends where the body
/// is gone.
pub open spec fn recorded(t: TrajectoryView, pool: PoolView, id: usize) -> TrajectoryView {
    if t.ended {
        t
    } else if pool.holds(id) {
        TrajectoryView { points: t.points.push(pool.body(id).position), ended: false }
    } else {
        TrajectoryView { points: t.points, ended: true }
    }
}

/// A trajectory that is up to date stays so when the next sample is
/// recorded.
pub proof fn lemma_recorded(
    t: TrajectoryView,
    start: PoolView,
    id: usize,
    constant: Fixed,
    time: Fixed,
    stride: nat,
    k: nat,
)
    requires
        sampled_so_far(t, start, id, constant, time, stride, k, !t.ended),
    ensures
        sampled_so_far(
            recorded(t, sample_state(start, constant, time, stride, k), id),
            start,
            id,
            constant,
            time,
            stride,
            k + 1,
            !recorded(t, sample_state(start, constant, time, stride, k), id).ended,
        ),
{
    let pool = sample_state(start, constant, time, stride, k);
    if !t.ended {
        if pool.holds(id) {
            lemma_sample_taken(t, pool.body(id).position, start, id, constant, time, stride, k);
        } else {
            lemma_sample_lost(t, recorded(t, pool, id), start, id, constant, time, stride, k, k + 1);
        }
    }
}

/// A trajectory that is up to date stays so when the next sample is added.
pub proof fn lemma_sample_taken(
    t: TrajectoryView,
    point: Vec3,
    start: PoolView,
    id: usize,
    constant: Fixed,
    time: Fixed,
    stride: nat,
    k: nat,
)
    requires
        sampled_so_far(t, start, id, constant, time, stride, k, true),
        sample_state(start, constant, time, stride, k).holds(id),
        point == sample_state(start, constant, time, stride, k).body(id).position,
    ensures
        sampled_so_far(
            TrajectoryView { points: t.points.push(point), ended: false },
            start,
            id,
            constant,
            time,
            stride,
            k + 1,
            true,
        ),
{
    let after = TrajectoryView { points: t.points.push(point), ended: false };
    assert forall|j: int| 0 <= j < after.points.len() implies (#[trigger] sample_state(
        start,
        constant,
        time,
        stride,
        j as nat,
    )).holds(id) && after.points[j] == sample_state(start, constant, time, stride, j as nat).body(
        id,
    ).position by {
        if j < k {
            assert(after.points[j] == t.points[j]);
        }
    }
}

/// A trajectory that is up to date is complete once its body is lost and the
/// trajectory is marked as ended.
pub proof fn lemma_sample_lost(
    t: TrajectoryView,
    after: TrajectoryView,
    start: PoolView,
    id: usize,
    constant: Fixed,
    time: Fixed,
    stride: nat,
    k: nat,
    count: nat,
)
    requires
        sampled_so_far(t, start, id, constant, time, stride, k, true),
        !sample_state(start, constant, time, stride, k).holds(id),
        after.points == t.points,
        after.ended,
        k < count,
    ensures
        sampled_so_far(after, start, id, constant, time, stride, count, false),
{
}

/// The steps taken inside a stride stay below the number of steps in all.
pub proof fn lemma_steps_within(k: int, s: int, count: int, stride: int)
    requires
        0 <= k < count,
        0 <= s < stride,
    ensures
        0 <= k * stride + s < count * stride,
{
    assert(0 <= k * stride + s < count * stride) by (nonlinear_arith)
        requires
            0 <= k < count,
            0 <= s < stride,
    ;
}

/// Records one sample for each of `bodies` from `pool`, in the trajectory at
/// the same place.
fn record_samples(bodies: &Vec<Object>, pool: &ObjectPool, trajectories: &mut Vec<Trajectory>)
    requires
        pool.wf(),
        old(trajectories)@.len() == bodies@.len(),
    ensures
        final(trajectories)@.len() == bodies@.len(),
        forall|j: int|
            0 <= j < bodies@.len() ==> (#[trigger] final(trajectories)@[j])@ == recorded(
                old(trajectories)@[j]@,
                pool@,
                bodies@[j].id,
            ),
{
    let n: usize = bodies.len();
    let mut j: usize = 0;
    while j < n
        invariant
            j <= n,
            n == bodies@.len(),
            pool.wf(),
            trajectories@.len() == n,
            forall|i: int|
                0 <= i < j ==> (#[trigger] trajectories@[i])@ == recorded(
                    old(trajectories)@[i]@,
                    pool@,
                    bodies@[i].id,
                ),
            forall|i: int| j <= i < n ==> trajectories@[i] == old(trajectories)@[i],
        decreases n - j,
    {
        if !trajectories[j].has_end() {
            match pool.get(bodies[j].id) {
                None => {
                    trajectories[j].end();
                },
                Some(body) => {
                    trajectories[j].push(body.position);
                },
            }
        }
        j += 1;
    }
}

impl ObjectPool {
    /// Forecasts the paths of all bodies of this pool at once. The forecast
    /// runs on a copy of the pool, which is advanced by `point_count` strides
    /// of `step` steps each; the position of every body is sampled after the
    /// first step of every stride. The result gives every body of this pool a
    /// trajectory under its identifier. The trajectory of a body that is gone
    /// at one of these times is marked as ended and grows no further.
    pub fn calculate_trajectories(
        &self,
        physics_handler: &PhysicsHandler,
        point_count: u32,
        step: u32,
    ) -> (r: HashMap<usize, Trajectory>)
        requires
            self.wf(),
            self@.counter + point_count * step <= usize::MAX,
        ensures
            forall|id: usize| r@.contains_key(id) == self@.holds(id),
            forall|id: usize|
                r@.contains_key(id) ==> is_forecast(
                    (#[trigger] r@[id])@,
                    self@,
                    id,
                    physics_handler.grav_const(),
                    physics_handler.timestep(),
                    point_count as nat,
                    step as nat,
                ),
    {
        broadcast use vstd::std_specs::hash::group_hash_axioms;

        let mut pool: ObjectPool = self.clone();
        let n: usize = self.objects.len();
        let mut trajectories: Vec<Trajectory> = Vec::new();
        let mut j: usize = 0;
        while j < n
            invariant
                j <= n,
                trajectories@.len() == j,
                forall|i: int|
                    0 <= i < j ==> (#[trigger] trajectories@[i])@.points.len() == 0
                        && !trajectories@[i]@.ended,
            decreases n - j,
        {
            trajectories.push(Trajectory::new());
            j += 1;
        }
        let ghost start = self@;
        let ghost g = physics_handler.grav_const();
        let ghost ts = physics_handler.timestep();
        let ghost stride = step as nat;
        let ghost total = (point_count * step) as nat;
        let ghost mut base: nat = 0;
        let mut k: u32 = 0;
        while step > 0 && k < point_count
            invariant
                k <= point_count,
                stride == step,
                total == point_count * stride,
                start == self@,
                n == self.objects@.len(),
                start.valid(),
                start.counter + total <= usize::MAX,
                g == physics_handler.grav_const(),
                ts == physics_handler.timestep(),
                base == k * stride,
                pool.wf(),
                pool@ == advanced_by(start, g, ts, base),
                trajectories@.len() == n,
                step > 0 ==> forall|i: int|
                    0 <= i < n ==> sampled_so_far(
                        (#[trigger] trajectories@[i])@,
                        start,
                        self.objects@[i].id,
                        g,
                        ts,
                        stride,
                        k as nat,
                        !trajectories@[i]@.ended,
                    ),
                step == 0 ==> forall|i: int|
                    0 <= i < n ==> (#[trigger] trajectories@[i])@.points.len() == 0
                        && !trajectories@[i]@.ended,
            decreases point_count - k,
        {
            proof {
                lemma_steps_within(k as int, stride - 1, point_count as int, stride as int);
            }
            let mut s: u32 = 0;
            while s < step
                invariant
                    k < point_count,
                    s <= step,
                    stride == step,
                    start == self@,
                    n == self.objects@.len(),
                    start.valid(),
                    start.counter + total <= usize::MAX,
                    base + stride <= total,
                    g == physics_handler.grav_const(),
                    ts == physics_handler.timestep(),
                    sample_state(start, g, ts, stride, k as nat) == advanced_by(
                        start,
                        g,
                        ts,
                        base + 1,
                    ),
                    pool.wf(),
                    pool@ == advanced_by(start, g, ts, base + s as nat),
                    trajectories@.len() == n,
                    forall|i: int|
                        0 <= i < n ==> sampled_so_far(
                            (#[trigger] trajectories@[i])@,
                            start,
                            self.objects@[i].id,
                            g,
                            ts,
                            stride,
                            if s == 0 {
                                k as nat
                            } else {
                                (k + 1) as nat
                            },
                            !trajectories@[i]@.ended,
                        ),
                decreases step - s,
            {
                proof {
                    lemma_advanced_by(start, g, ts, base + s as nat);
                }
                physics_handler.update_objects(&mut pool);
                assert(pool@ == advanced_by(start, g, ts, base + s as nat + 1));
                if s == 0 {
                    let ghost before = trajectories@;
                    record_samples(&self.objects, &pool, &mut trajectories);
                    proof {
                        assert forall|i: int| 0 <= i < n implies sampled_so_far(
                            (#[trigger] trajectories@[i])@,
                            start,
                            self.objects@[i].id,
                            g,
                            ts,
                            stride,
                            (k + 1) as nat,
                            !trajectories@[i]@.ended,
                        ) by {
                            lemma_recorded(
                                before[i]@,
                                start,
                                self.objects@[i].id,
                                g,
                                ts,
                                stride,
                                k as nat,
                            );
                        }
                    }
                }
                s += 1;
            }
            proof {
                assert((k + 1) * stride == k * stride + stride) by (nonlinear_arith);
                base = base + stride;
            }
            k += 1;
        }
        let ghost done = trajectories@;
        assert forall|i: int| 0 <= i < n implies is_forecast(
            (#[trigger] done[i])@,
            start,
            self.objects@[i].id,
            g,
            ts,
            point_count as nat,
            stride,
        ) by {}
        let mut map: HashMap<usize, Trajectory> = HashMap::new();
        let mut j: usize = n;
        while j > 0
            invariant
                j <= n,
                n == self.objects@.len(),
                self.wf(),
                self@.bodies == self.objects@,
                trajectories@ == done.take(j as int),
                done.len() == n,
                forall|id: usize|
                    map@.contains_key(id) == (exists|i: int|
                        j <= i < n && self.objects@[i].id == id),
                forall|i: int| j <= i < n ==> map@[self.objects@[i].id] == done[i],
            decreases j,
        {
            j -= 1;
            let t: Trajectory = trajectories.pop().unwrap();
            let id: usize = self.objects[j].id;
            let ghost before = map@;
            map.insert(id, t);
            assert forall|other: usize| map@.contains_key(other) == (exists|i: int|
                j <= i < n && self.objects@[i].id == other) by {
                if other == id {
                    assert(self.objects@[j as int].id == id);
                } else if before.contains_key(other) {
                    let i = choose|i: int| j + 1 <= i < n && self.objects@[i].id == other;
                    assert(j <= i < n && self.objects@[i].id == other);
                }
            }
            assert forall|i: int| j <= i < n implies map@[self.objects@[i].id] == done[i] by {
                if i > j {
                    assert(self@.bodies[j as int].id != self@.bodies[i].id);
                }
            }
        }
        assert forall|id: usize| map@.contains_key(id) implies is_forecast(
            (#[trigger] map@[id])@,
            self@,
            id,
            g,
            ts,
            point_count as nat,
            step as nat,
        ) by {
            let i = choose|i: int| 0 <= i < n && self.objects@[i].id == id;
            assert(map@[self.objects@[i].id] == done[i]);
        }
        assert forall|id: usize| map@.contains_key(id) == self@.holds(id) by {
            if map@.contains_key(id) {
                let i = choose|i: int| 0 <= i < n && self.objects@[i].id == id;
                assert(self@.bodies[i].id == id);
            }
            if self@.holds(id) {
                let i = self@.slot(id);
                assert(0 <= i < n && self.objects@[i].id == id);
            }
        }
        map
    }
}

} // verus!
