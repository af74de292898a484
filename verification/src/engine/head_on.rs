//! Two equal particles that run into each other head-on along the x-axis:
//! what every tick leaves of them, up to the tick at which they collide.
use vstd::prelude::*;
use crate::engine::collider::box_collider::{all_clear, lemma_box_pass_free, wall_x, wall_y};
use crate::engine::collider::sweep_collider::{
    Event, SweepCollider, all_apart, lemma_nothing_to_resolve, lemma_two_particles_collide, sweep_outcome,
};
use crate::engine::collider::{BasicCollisionProcessor, CollisionDetector, lemma_equal_particles_exchange};
use crate::engine::particle::{Area, Particle, all_wf};
use crate::engine::simulation::{advanced, is_run, moved};
use crate::engine::vec2d::Vec2d;

verus! {

/// `p`, moved by `dx` along the x-axis.
pub open spec fn shifted(p: Particle, dx: int) -> Particle {
    Particle { pos: Vec2d { x: (p.pos.x + dx) as i64, y: p.pos.y }, ..p }
}

/// Two particles of one radius at one height, clear of the walls and not
/// overlapping, the left one moving right and the right one moving left at
/// the same speed, so slowly that they cannot pass through each other in one
/// tick of length `dt`.
pub open spec fn head_on(area: Area, ps: Seq<Particle>, dt: int) -> bool {
    let a = ps[0];
    let b = ps[1];
    &&& ps.len() == 2
    &&& a.wf()
    &&& b.radius == a.radius
    &&& b.pos.y == a.pos.y
    &&& a.vel.y == 0 && b.vel.y == 0
    &&& a.vel.x > 0 && b.vel.x == -a.vel.x
    &&& dt > 0
    &&& a.vel.x * dt < 2 * a.radius
    &&& b.pos.x - a.pos.x >= 2 * a.radius
    &&& 0 < a.pos.x - a.radius
    &&& b.pos.x + b.radius < area.size.x
    &&& 0 < a.pos.y - a.radius
    &&& a.pos.y + a.radius < area.size.y
}

/// The distance of the two centres after `k` ticks of free flight.
pub open spec fn gap(ps: Seq<Particle>, dt: int, k: int) -> int {
    ps[1].pos.x - ps[0].pos.x - 2 * (k * (ps[0].vel.x * dt))
}

/// The two particles after `k` ticks of free flight.
pub open spec fn approached(ps: Seq<Particle>, dt: int, k: int) -> Seq<Particle> {
    seq![shifted(ps[0], k * (ps[0].vel.x * dt)), shifted(ps[1], -(k * (ps[0].vel.x * dt)))]
}

/// The two particles after `k` ticks, on the last of which they collided.
pub open spec fn rebounded(ps: Seq<Particle>, dt: int, k: int) -> Seq<Particle> {
    seq![
        Particle { vel: ps[1].vel, ..shifted(ps[0], k * (ps[0].vel.x * dt)) },
        Particle { vel: ps[0].vel, ..shifted(ps[1], -(k * (ps[0].vel.x * dt))) },
    ]
}

/// One tick of free flight of the two particles that have flown `k` ticks.
proof fn lemma_approach_step(area: Area, ps: Seq<Particle>, dt: int, k: int)
    requires
        head_on(area, ps, dt),
        k >= 0,
        gap(ps, dt, k) >= 2 * ps[0].radius,
    ensures
        gap(ps, dt, k + 1) == gap(ps, dt, k) - 2 * (ps[0].vel.x * dt),
        -2 * ps[0].radius < gap(ps, dt, k + 1),
        advanced(approached(ps, dt, k), Vec2d { x: 0, y: 0 }, dt) == approached(ps, dt, k + 1),
        all_clear(area, approached(ps, dt, k + 1)),
        all_wf(approached(ps, dt, k + 1)),
        gap(ps, dt, k + 1) == approached(ps, dt, k + 1)[1].pos.x - approached(ps, dt, k + 1)[0].pos.x,
{
    let a = ps[0];
    let b = ps[1];
    let r = a.radius as int;
    let step = a.vel.x * dt;
    let zero = Vec2d { x: 0, y: 0 };
    assert(step >= 1) by (nonlinear_arith)
        requires
            a.vel.x > 0,
            dt > 0,
            step == a.vel.x * dt,
    ;
    assert((k + 1) * step == k * step + step && k * step >= 0) by (nonlinear_arith)
        requires
            k >= 0,
            step >= 1,
    ;
    assert(b.vel.x * dt == -step) by (nonlinear_arith)
        requires
            b.vel.x == -a.vel.x,
            step == a.vel.x * dt,
    ;
    assert(0 * dt == 0) by (nonlinear_arith);
    let now = approached(ps, dt, k);
    let next = approached(ps, dt, k + 1);
    let ahead = advanced(now, zero, dt);
    assert(now[0].pos.x == a.pos.x + k * step);
    assert(now[1].pos.x == b.pos.x - k * step);
    assert(moved(now[0], zero, dt) == next[0]);
    assert(moved(now[1], zero, dt) == next[1]);
    assert(ahead =~= next);
    assert(next[0].wf() && next[1].wf());
    assert(wall_x(area, next[0]) is None && wall_y(area, next[0]) is None);
    assert(wall_x(area, next[1]) is None && wall_y(area, next[1]) is None);
}

/// Two particles that run into each other head-on keep their velocities on
/// every tick that leaves their centres two radii apart or more, and
/// exchange them on the first tick that leaves the centres closer.
pub proof fn lemma_head_on(
    collider: SweepCollider<BasicCollisionProcessor, BasicCollisionProcessor>,
    area: Area,
    dt: int,
    trace: Seq<Seq<Particle>>,
    k: int,
)
    requires
        trace.len() > 0,
        head_on(area, trace[0], dt),
        is_run(collider, area, Vec2d { x: 0, y: 0 }, dt, trace),
        0 <= k < trace.len(),
    ensures
        gap(trace[0], dt, k) >= 2 * trace[0][0].radius ==> trace[k] == approached(trace[0], dt, k),
        k >= 1 && gap(trace[0], dt, k - 1) >= 2 * trace[0][0].radius && gap(trace[0], dt, k) < 2
            * trace[0][0].radius ==> trace[k] == rebounded(trace[0], dt, k),
    decreases k,
{
    let ps = trace[0];
    let r = ps[0].radius as int;
    let step = ps[0].vel.x * dt;
    let zero = Vec2d { x: 0, y: 0 };
    assert(step >= 1) by (nonlinear_arith)
        requires
            ps[0].vel.x > 0,
            dt > 0,
            step == ps[0].vel.x * dt,
    ;
    if k == 0 {
        assert(0 * step == 0) by (nonlinear_arith);
        assert(trace[0] =~= approached(ps, dt, 0));
    } else {
        assert(k * step == (k - 1) * step + step) by (nonlinear_arith);
        if gap(ps, dt, k - 1) >= 2 * r {
            lemma_head_on(collider, area, dt, trace, k - 1);
            lemma_approach_step(area, ps, dt, k - 1);
            let next = approached(ps, dt, k);
            assert(collider.resolves(area, advanced(trace[k - 1], zero, dt), trace[k]));
            let dx = next[0].pos.x - next[1].pos.x;
            let dy = next[0].pos.y - next[1].pos.y;
            let reach = next[0].radius + next[1].radius;
            assert(dy == 0 && reach == 2 * r && dx == -gap(ps, dt, k));
            if gap(ps, dt, k) >= 2 * r {
                assert(dx * dx + dy * dy >= reach * reach) by (nonlinear_arith)
                    requires
                        dy == 0,
                        dx <= -reach,
                        reach > 0,
                ;
                assert((-dx) * (-dx) == dx * dx && (-dy) * (-dy) == dy * dy) by (nonlinear_arith);
                assert(!next[0].overlaps(next[1]) && !next[1].overlaps(next[0]));
                assert(all_apart(next));
                lemma_nothing_to_resolve(collider, area, next, trace[k]);
            } else {
                assert(dx * dx + dy * dy < reach * reach) by (nonlinear_arith)
                    requires
                        dy == 0,
                        -reach < dx < reach,
                ;
                assert(next[0].overlaps(next[1]));
                lemma_box_pass_free(collider.box_collider.processor, area, next);
                let (ev, orders) = choose|ev: Seq<Event>, orders: Seq<Seq<usize>>| #[trigger]
                    sweep_outcome(collider.processor, next, ev, orders, trace[k]);
                lemma_two_particles_collide(collider.processor, next, ev, orders);
                lemma_equal_particles_exchange(next[0], next[1]);
                assert(trace[k] =~= rebounded(ps, dt, k));
            }
        }
    }
}

/// The two particles do collide: some tick is the first to leave their
/// centres closer than two radii.
pub proof fn lemma_head_on_meets(area: Area, ps: Seq<Particle>, dt: int) -> (k: int)
    requires
        head_on(area, ps, dt),
    ensures
        k >= 1,
        gap(ps, dt, k - 1) >= 2 * ps[0].radius,
        gap(ps, dt, k) < 2 * ps[0].radius,
{
    let step = ps[0].vel.x * dt;
    assert(step >= 1) by (nonlinear_arith)
        requires
            ps[0].vel.x > 0,
            dt > 0,
            step == ps[0].vel.x * dt,
    ;
    assert(0 * (2 * step) == 0) by (nonlinear_arith);
    let k = lemma_first_below(ps[1].pos.x - ps[0].pos.x - 2 * ps[0].radius, 2 * step, 0);
    assert(k * (2 * step) == 2 * (k * step) && (k - 1) * (2 * step) == 2 * ((k - 1) * step)) by (nonlinear_arith);
    k
}

/// A distance that shrinks by a fixed amount every tick falls below zero
/// at some tick, and not before.
proof fn lemma_first_below(room: int, shrink: int, from: int) -> (k: int)
    requires
        shrink > 0,
        from >= 0,
        room - from * shrink >= 0,
    ensures
        k >= from + 1,
        room - (k - 1) * shrink >= 0,
        room - k * shrink < 0,
    decreases room - from * shrink,
{
    assert((from + 1) * shrink == from * shrink + shrink) by (nonlinear_arith);
    if room - (from + 1) * shrink < 0 {
        from + 1
    } else {
        lemma_first_below(room, shrink, from + 1)
    }
}

} // verus!
