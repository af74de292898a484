//! The momentum of all particles together, and what a pass of collisions
//! does to it.
use vstd::prelude::*;
use crate::engine::collider::box_collider::{all_clear, lemma_box_pass_free};
use crate::engine::collider::sweep_collider::{
    Event, SweepCollider, candidates, resolved, struck, sweep_outcome,
};
use crate::engine::collider::{
    BasicCollisionProcessor, CollisionDetector, CollisionProcessor, lemma_collision_conserves_momentum,
    lemma_equal_particles_exchange, unsaturated,
};
use crate::engine::particle::{Area, MAX_RADIUS, Particle, all_wf, same_bodies};
use crate::engine::vec2d::Vec2d;

verus! {

/// The component of `v` along the x-axis, or along the y-axis.
pub open spec fn along(v: Vec2d, x_axis: bool) -> int {
    if x_axis {
        v.x as int
    } else {
        v.y as int
    }
}

/// The momentum of `ps` along one axis: the sum of mass times velocity.
pub open spec fn momentum(ps: Seq<Particle>, x_axis: bool) -> int
    decreases ps.len(),
{
    if ps.len() == 0 {
        0
    } else {
        momentum(ps.drop_last(), x_axis) + ps.last().mass() * along(ps.last().vel, x_axis)
    }
}

/// All particles of `ps` have the same radius.
pub open spec fn equal_radii(ps: Seq<Particle>) -> bool {
    forall|i: int, j: int| 0 <= i < ps.len() && 0 <= j < ps.len() ==> (#[trigger] ps[i]).radius == (#[trigger] ps[j]).radius
}

/// No collision among `pairs`, looked at one after the other, cuts a
/// velocity off at the end of the `i64` range.
pub open spec fn calm(ps: Seq<Particle>, pairs: Seq<(usize, usize)>) -> bool
    decreases pairs.len(),
{
    if pairs.len() == 0 {
        true
    } else {
        let now = resolved(BasicCollisionProcessor, ps, pairs.drop_last());
        let (i, j) = pairs.last();
        &&& calm(ps, pairs.drop_last())
        &&& i < now.len() && j < now.len() && i != j && now[i as int].overlaps(now[j as int]) ==> unsaturated(
            now[i as int],
            now[j as int],
        )
    }
}

/// Replacing one particle changes the momentum by the difference of the
/// two.
proof fn lemma_momentum_update(ps: Seq<Particle>, k: int, q: Particle, x_axis: bool)
    requires
        0 <= k < ps.len(),
    ensures
        momentum(ps.update(k, q), x_axis) == momentum(ps, x_axis) - ps[k].mass() * along(ps[k].vel, x_axis)
            + q.mass() * along(q.vel, x_axis),
    decreases ps.len(),
{
    let changed = ps.update(k, q);
    if k == ps.len() - 1 {
        assert(changed.drop_last() =~= ps.drop_last());
    } else {
        assert(changed.drop_last() =~= ps.drop_last().update(k, q));
        lemma_momentum_update(ps.drop_last(), k, q, x_axis);
    }
}

/// Looking at pairs changes velocities only.
proof fn lemma_resolved_bodies(ps: Seq<Particle>, pairs: Seq<(usize, usize)>)
    ensures
        same_bodies(ps, resolved(BasicCollisionProcessor, ps, pairs)),
    decreases pairs.len(),
{
    if pairs.len() > 0 {
        lemma_resolved_bodies(ps, pairs.drop_last());
        let now = resolved(BasicCollisionProcessor, ps, pairs.drop_last());
        let next = struck(BasicCollisionProcessor, now, pairs.last());
        assert forall|i: int| 0 <= i < ps.len() implies (#[trigger] ps[i]).same_body(next[i]) by {
            assert(ps[i].same_body(now[i]));
        }
    }
}

/// One look at a pair changes the momentum by less than the two masses
/// together, and not at all where the masses are equal.
proof fn lemma_struck_momentum(ps: Seq<Particle>, pair: (usize, usize), x_axis: bool)
    requires
        all_wf(ps),
        pair.0 < ps.len() && pair.1 < ps.len() && pair.0 != pair.1 && ps[pair.0 as int].overlaps(
            ps[pair.1 as int],
        ) ==> unsaturated(ps[pair.0 as int], ps[pair.1 as int]) || ps[pair.0 as int].radius
            == ps[pair.1 as int].radius,
    ensures
        ({
            let after = momentum(struck(BasicCollisionProcessor, ps, pair), x_axis);
            let before = momentum(ps, x_axis);
            &&& -2 * (MAX_RADIUS * MAX_RADIUS) < after - before < 2 * (MAX_RADIUS * MAX_RADIUS)
            &&& pair.0 < ps.len() && pair.1 < ps.len() && ps[pair.0 as int].radius == ps[pair.1 as int].radius
                ==> after == before
        }),
{
    let (i, j) = pair;
    if i != j && i < ps.len() && j < ps.len() && ps[i as int].overlaps(ps[j as int]) {
        let lo = if i < j { i as int } else { j as int };
        let hi = if i < j { j as int } else { i as int };
        let (p1, p2) = (ps[lo], ps[hi]);
        let (a, b) = BasicCollisionProcessor.exchanged(p1, p2);
        assert(p1.wf() && p2.wf());
        assert(0 < p1.mass() <= MAX_RADIUS * MAX_RADIUS && 0 < p2.mass() <= MAX_RADIUS * MAX_RADIUS)
            by (nonlinear_arith)
            requires
                0 < p1.radius <= MAX_RADIUS,
                0 < p2.radius <= MAX_RADIUS,
                p1.mass() == p1.radius * p1.radius,
                p2.mass() == p2.radius * p2.radius,
        ;
        lemma_momentum_update(ps, lo, a, x_axis);
        lemma_momentum_update(ps.update(lo, a), hi, b, x_axis);
        if p1.radius == p2.radius {
            lemma_equal_particles_exchange(p1, p2);
        } else {
            assert(unsaturated(ps[i as int], ps[j as int]));
            assert(unsaturated(p1, p2));
            lemma_collision_conserves_momentum(p1, p2);
        }
    } else {
        assert(0 < MAX_RADIUS * MAX_RADIUS) by (nonlinear_arith);
    }
}

/// A run of collisions conserves momentum up to rounding: along each axis
/// it changes by less than twice the largest mass for every pair that was
/// looked at, as long as no velocity is cut off.
pub proof fn lemma_resolved_momentum(ps: Seq<Particle>, pairs: Seq<(usize, usize)>, x_axis: bool)
    requires
        all_wf(ps),
        calm(ps, pairs),
    ensures
        ({
            let after = momentum(resolved(BasicCollisionProcessor, ps, pairs), x_axis);
            let before = momentum(ps, x_axis);
            let slack = pairs.len() * (2 * (MAX_RADIUS * MAX_RADIUS));
            -slack <= after - before <= slack
        }),
    decreases pairs.len(),
{
    let each = 2 * (MAX_RADIUS * MAX_RADIUS);
    if pairs.len() > 0 {
        let front = pairs.drop_last();
        let now = resolved(BasicCollisionProcessor, ps, front);
        lemma_resolved_momentum(ps, front, x_axis);
        lemma_resolved_bodies(ps, front);
        assert forall|i: int| 0 <= i < now.len() implies (#[trigger] now[i]).wf() by {
            assert(ps[i].same_body(now[i]));
            assert(ps[i].wf());
        }
        lemma_struck_momentum(now, pairs.last(), x_axis);
        assert(pairs.len() * each == front.len() * each + each) by (nonlinear_arith)
            requires
                pairs.len() == front.len() + 1,
        ;
    } else {
        assert(pairs.len() * each == 0) by (nonlinear_arith)
            requires
                pairs.len() == 0,
        ;
    }
}

/// A run of collisions among particles of one radius conserves momentum
/// exactly: each collision exchanges two velocities.
pub proof fn lemma_resolved_momentum_equal_radii(ps: Seq<Particle>, pairs: Seq<(usize, usize)>, x_axis: bool)
    requires
        all_wf(ps),
        equal_radii(ps),
    ensures
        momentum(resolved(BasicCollisionProcessor, ps, pairs), x_axis) == momentum(ps, x_axis),
    decreases pairs.len(),
{
    if pairs.len() > 0 {
        let front = pairs.drop_last();
        let now = resolved(BasicCollisionProcessor, ps, front);
        lemma_resolved_momentum_equal_radii(ps, front, x_axis);
        lemma_resolved_bodies(ps, front);
        assert forall|i: int| 0 <= i < now.len() implies (#[trigger] now[i]).wf() by {
            assert(ps[i].same_body(now[i]));
            assert(ps[i].wf());
        }
        let (i, j) = pairs.last();
        if i < now.len() && j < now.len() {
            assert(ps[i as int].same_body(now[i as int]) && ps[j as int].same_body(now[j as int]));
            assert(ps[i as int].radius == ps[j as int].radius);
        }
        lemma_struck_momentum(now, pairs.last(), x_axis);
    }
}

/// A whole pass of the sweep collider with the basic processors conserves
/// the momentum of particles of one radius exactly, along both axes,
/// however many pairs collide and in whatever order, as long as no
/// particle touches a wall.
pub proof fn lemma_pass_conserves_momentum(
    collider: SweepCollider<BasicCollisionProcessor, BasicCollisionProcessor>,
    area: Area,
    before: Seq<Particle>,
    after: Seq<Particle>,
)
    requires
        all_wf(before),
        equal_radii(before),
        all_clear(area, before),
        collider.resolves(area, before, after),
    ensures
        momentum(after, true) == momentum(before, true),
        momentum(after, false) == momentum(before, false),
{
    lemma_box_pass_free(collider.box_collider.processor, area, before);
    let (ev, orders) = choose|ev: Seq<Event>, orders: Seq<Seq<usize>>| #[trigger]
        sweep_outcome(collider.processor, before, ev, orders, after);
    let pairs = candidates(ev, orders, ev.len() as int);
    lemma_resolved_momentum_equal_radii(before, pairs, true);
    lemma_resolved_momentum_equal_radii(before, pairs, false);
}

/// A whole pass of the sweep collider with the basic processors conserves
/// momentum up to rounding, whatever the radii: along each axis it changes
/// by less than twice the largest mass for every candidate pair of the
/// pass, as long as no particle touches a wall and no velocity is cut off.
pub proof fn lemma_pass_keeps_momentum(
    collider: SweepCollider<BasicCollisionProcessor, BasicCollisionProcessor>,
    area: Area,
    before: Seq<Particle>,
    after: Seq<Particle>,
    x_axis: bool,
) -> (pairs: Seq<(usize, usize)>)
    requires
        all_wf(before),
        all_clear(area, before),
        collider.resolves(area, before, after),
        forall|ev: Seq<Event>, orders: Seq<Seq<usize>>| #[trigger]
            sweep_outcome(collider.processor, before, ev, orders, after) ==> calm(
                before,
                candidates(ev, orders, ev.len() as int),
            ),
    ensures
        exists|ev: Seq<Event>, orders: Seq<Seq<usize>>| #[trigger]
            sweep_outcome(collider.processor, before, ev, orders, after) && pairs == candidates(
                ev,
                orders,
                ev.len() as int,
            ),
        -(pairs.len() * (2 * (MAX_RADIUS * MAX_RADIUS))) <= momentum(after, x_axis) - momentum(before, x_axis)
            <= pairs.len() * (2 * (MAX_RADIUS * MAX_RADIUS)),
{
    lemma_box_pass_free(collider.box_collider.processor, area, before);
    let (ev, orders) = choose|ev: Seq<Event>, orders: Seq<Seq<usize>>| #[trigger]
        sweep_outcome(collider.processor, before, ev, orders, after);
    let pairs = candidates(ev, orders, ev.len() as int);
    lemma_resolved_momentum(before, pairs, x_axis);
    pairs
}

} // verus!
