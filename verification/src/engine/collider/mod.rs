//! Detecting collisions and responding to them.
pub mod box_collider;
pub mod momentum;
pub mod sweep_collider;

use vstd::prelude::*;
use crate::engine::particle::{Area, Particle, all_wf, same_bodies};
use crate::engine::scalar::{lemma_quotient_error, lemma_quotient_of_multiple, narrow, quotient, saturate};
use crate::engine::vec2d::Vec2d;

verus! {

/// A trait for detecting collisions
pub trait CollisionDetector {
    /// What one pass over `before` may leave behind. A detector that sorts
    /// may meet particles that share a coordinate in more than one order, so
    /// this is a relation. A detector that does not say more promises only
    /// what `process_collisions` itself ensures.
    open spec fn resolves(&self, area: Area, before: Seq<Particle>, after: Seq<Particle>) -> bool {
        true
    }

    /// This function should not only detect collisions, but also process them
    fn process_collisions(&self, area: &Area, particles: &mut Vec<Particle>)
        requires
            all_wf(old(particles)@),
        ensures
            self.resolves(*area, old(particles)@, final(particles)@),
            same_bodies(old(particles)@, final(particles)@),
    ;
}

/// The four walls of the box.
#[derive(Clone, Copy, Debug, PartialEq, Eq, Structural)]
pub enum Wall {
    Top,
    Right,
    Bottom,
    Left,
}

/// An enum representing all cases of collisions between particles and the box
pub enum BoxCollision<'a> {
    Top(&'a mut Particle),
    Right(&'a mut Particle),
    Bottom(&'a mut Particle),
    Left(&'a mut Particle),
}

/// An enum representing collisions
pub enum Collision<'a> {
    Box(BoxCollision<'a>),
    Particle(&'a mut Particle, &'a mut Particle),
}

/// A trait which implements collision processing for defining custom on-collision behaviour
pub trait CollisionProcessor {
    /// The particle `p` after it has touched `wall`.
    ///
    /// Unless a processor says otherwise, the wall reflects it.
    open spec fn bounced(&self, wall: Wall, p: Particle) -> Particle {
        Particle { vel: reflected(wall, p.vel), ..p }
    }

    /// The two particles after they have met, in the order given.
    ///
    /// Unless a processor says otherwise, they collide perfectly elastically.
    open spec fn exchanged(&self, p1: Particle, p2: Particle) -> (Particle, Particle) {
        (
            Particle { vel: elastic_velocity(p1, p2), ..p1 },
            Particle { vel: elastic_velocity(p2, p1), ..p2 },
        )
    }

    /// A method for processing collisions.
    ///
    /// A processor changes velocities only: position, radius and colour stay.
    fn process_collision(&self, collision: Collision)
        requires
            match collision {
                Collision::Box(BoxCollision::Top(p)) => p.wf(),
                Collision::Box(BoxCollision::Right(p)) => p.wf(),
                Collision::Box(BoxCollision::Bottom(p)) => p.wf(),
                Collision::Box(BoxCollision::Left(p)) => p.wf(),
                Collision::Particle(p1, p2) => p1.wf() && p2.wf(),
            },
        ensures
            match collision {
                Collision::Box(BoxCollision::Top(p)) => *final(p) == self.bounced(Wall::Top, *p)
                    && p.same_body(*final(p)),
                Collision::Box(BoxCollision::Right(p)) => *final(p) == self.bounced(Wall::Right, *p)
                    && p.same_body(*final(p)),
                Collision::Box(BoxCollision::Bottom(p)) => *final(p) == self.bounced(
                    Wall::Bottom,
                    *p,
                ) && p.same_body(*final(p)),
                Collision::Box(BoxCollision::Left(p)) => *final(p) == self.bounced(Wall::Left, *p)
                    && p.same_body(*final(p)),
                Collision::Particle(p1, p2) => (*final(p1), *final(p2)) == self.exchanged(*p1, *p2)
                    && p1.same_body(*final(p1)) && p2.same_body(*final(p2)),
            },
    ;
}

/// The velocity `v` after a contact with `wall`: the component that points
/// into the wall is reversed, one that points away is left alone.
pub open spec fn reflected(wall: Wall, v: Vec2d) -> Vec2d {
    match wall {
        Wall::Top => if v.y > 0 { Vec2d { x: v.x, y: saturate(-v.y) as i64 } } else { v },
        Wall::Right => if v.x > 0 { Vec2d { x: saturate(-v.x) as i64, y: v.y } } else { v },
        Wall::Bottom => if v.y < 0 { Vec2d { x: v.x, y: saturate(-v.y) as i64 } } else { v },
        Wall::Left => if v.x < 0 { Vec2d { x: saturate(-v.x) as i64, y: v.y } } else { v },
    }
}

/// One velocity component of a body of mass `m1` after a perfectly elastic
/// collision along a line with a body of mass `m2`, rounded toward zero.
pub open spec fn elastic(v1: int, m1: int, v2: int, m2: int) -> int {
    quotient(v1 * (m1 - m2) + 2 * m2 * v2, m1 + m2)
}

/// The velocity of `p1` after a perfectly elastic collision with `p2`, the
/// formula applied to each component on its own.
pub open spec fn elastic_velocity(p1: Particle, p2: Particle) -> Vec2d {
    Vec2d {
        x: saturate(elastic(p1.vel.x as int, p1.mass(), p2.vel.x as int, p2.mass())) as i64,
        y: saturate(elastic(p1.vel.y as int, p1.mass(), p2.vel.y as int, p2.mass())) as i64,
    }
}

/// A wall never turns a velocity that already points away from it, and a
/// second contact with the same wall changes nothing that the first left.
pub proof fn lemma_reflected_once(wall: Wall, v: Vec2d)
    ensures
        reflected(wall, reflected(wall, v)) == reflected(wall, v),
        wall == Wall::Top && v.y <= 0 ==> reflected(wall, v) == v,
        wall == Wall::Right && v.x <= 0 ==> reflected(wall, v) == v,
        wall == Wall::Bottom && v.y >= 0 ==> reflected(wall, v) == v,
        wall == Wall::Left && v.x >= 0 ==> reflected(wall, v) == v,
{
}

/// An elastic collision conserves momentum, up to the rounding of the two
/// new velocities: along each axis the momentum `m1 * v1 + m2 * v2` after
/// the collision differs from the one before by less than `m1 + m2`.
pub proof fn lemma_elastic_momentum(v1: int, m1: int, v2: int, m2: int)
    requires
        m1 > 0,
        m2 > 0,
    ensures
        ({
            let after = m1 * elastic(v1, m1, v2, m2) + m2 * elastic(v2, m2, v1, m1);
            let before = m1 * v1 + m2 * v2;
            -(m1 + m2) < after - before < m1 + m2
        }),
{
    let d = m1 + m2;
    let n1 = v1 * (m1 - m2) + 2 * m2 * v2;
    let n2 = v2 * (m2 - m1) + 2 * m1 * v1;
    let a = elastic(v1, m1, v2, m2);
    let b = elastic(v2, m2, v1, m1);
    lemma_quotient_error(n1, d);
    lemma_quotient_error(n2, d);
    assert(d == m2 + m1);
    let e1 = n1 - d * a;
    let e2 = n2 - d * b;
    let x = m1 * v1;
    let y = m2 * v2;
    let u = m2 * v1;
    let w = m1 * v2;
    let before = x + y;
    assert(n1 == x - u + 2 * y && n2 == y - w + 2 * x) by (nonlinear_arith)
        requires
            n1 == v1 * (m1 - m2) + 2 * m2 * v2,
            n2 == v2 * (m2 - m1) + 2 * m1 * v1,
            x == m1 * v1,
            y == m2 * v2,
            u == m2 * v1,
            w == m1 * v2,
    ;
    assert(m1 * n1 == m1 * x - m1 * u + 2 * (m1 * y)) by (nonlinear_arith)
        requires
            n1 == x - u + 2 * y,
    ;
    assert(m2 * n2 == m2 * y - m2 * w + 2 * (m2 * x)) by (nonlinear_arith)
        requires
            n2 == y - w + 2 * x,
    ;
    assert(m1 * u == m2 * x && m1 * y == m2 * w) by (nonlinear_arith)
        requires
            x == m1 * v1,
            y == m2 * v2,
            u == m2 * v1,
            w == m1 * v2,
    ;
    assert(d * before == m1 * x + m1 * y + m2 * x + m2 * y) by (nonlinear_arith)
        requires
            d == m1 + m2,
            before == x + y,
    ;
    assert(m1 * n1 + m2 * n2 == d * before);
    assert(m1 * e1 == m1 * n1 - d * (m1 * a)) by (nonlinear_arith)
        requires
            e1 == n1 - d * a,
    ;
    assert(m2 * e2 == m2 * n2 - d * (m2 * b)) by (nonlinear_arith)
        requires
            e2 == n2 - d * b,
    ;
    let after = m1 * a + m2 * b;
    assert(d * (after - before) == d * (m1 * a) + d * (m2 * b) - d * before) by (nonlinear_arith)
        requires
            after == m1 * a + m2 * b,
    ;
    assert(d * (after - before) == -(m1 * e1 + m2 * e2));
    assert(-(d * d) < m1 * e1 + m2 * e2 < d * d) by (nonlinear_arith)
        requires
            d == m1 + m2,
            m1 > 0,
            m2 > 0,
            -d < e1 < d,
            -d < e2 < d,
    ;
    let diff = after - before;
    assert(-d < diff < d) by (nonlinear_arith)
        requires
            d > 0,
            -(d * d) < d * diff < d * d,
    ;
}

/// A second collision right after the first gives a body its velocity back,
/// up to the rounding of the quotients: it ends within three steps of where
/// it began.
pub proof fn lemma_elastic_twice(v1: int, m1: int, v2: int, m2: int)
    requires
        m1 > 0,
        m2 > 0,
    ensures
        ({
            let a = elastic(v1, m1, v2, m2);
            let b = elastic(v2, m2, v1, m1);
            -4 < elastic(a, m1, b, m2) - v1 < 4
        }),
{
    let d = m1 + m2;
    let n1 = v1 * (m1 - m2) + 2 * m2 * v2;
    let n2 = v2 * (m2 - m1) + 2 * m1 * v1;
    let a = elastic(v1, m1, v2, m2);
    let b = elastic(v2, m2, v1, m1);
    assert(d == m2 + m1);
    lemma_quotient_error(n1, d);
    lemma_quotient_error(n2, d);
    let e1 = n1 - d * a;
    let e2 = n2 - d * b;
    let x = m1 * v1;
    let y = m2 * v2;
    let u = m2 * v1;
    let w = m1 * v2;
    let dm = m1 - m2;
    assert(n1 == x - u + 2 * y && n2 == y - w + 2 * x) by (nonlinear_arith)
        requires
            n1 == v1 * (m1 - m2) + 2 * m2 * v2,
            n2 == v2 * (m2 - m1) + 2 * m1 * v1,
            x == m1 * v1,
            y == m2 * v2,
            u == m2 * v1,
            w == m1 * v2,
    ;
    assert(m1 * u == m2 * x && m1 * y == m2 * w) by (nonlinear_arith)
        requires
            x == m1 * v1,
            y == m2 * v2,
            u == m2 * v1,
            w == m1 * v2,
    ;
    assert(dm * n1 == m1 * x - m1 * u + 2 * (m1 * y) - m2 * x + m2 * u - 2 * (m2 * y)) by (nonlinear_arith)
        requires
            dm == m1 - m2,
            n1 == x - u + 2 * y,
    ;
    assert(m2 * n2 == m2 * y - m2 * w + 2 * (m2 * x)) by (nonlinear_arith)
        requires
            n2 == y - w + 2 * x,
    ;
    assert(d * (x + u) == m1 * x + m1 * u + m2 * x + m2 * u) by (nonlinear_arith)
        requires
            d == m1 + m2,
    ;
    assert(d * v1 == x + u) by (nonlinear_arith)
        requires
            d == m1 + m2,
            x == m1 * v1,
            u == m2 * v1,
    ;
    // the numerator of the second collision, times the divisor
    let again = a * dm + 2 * m2 * b;
    assert(dm * n1 + 2 * (m2 * n2) == d * (d * v1));
    assert(d * again == dm * (d * a) + 2 * (m2 * (d * b))) by (nonlinear_arith)
        requires
            again == a * dm + 2 * m2 * b,
    ;
    assert(dm * (d * a) == dm * n1 - dm * e1 && m2 * (d * b) == m2 * n2 - m2 * e2) by (nonlinear_arith)
        requires
            e1 == n1 - d * a,
            e2 == n2 - d * b,
    ;
    let off = dm * e1 + 2 * (m2 * e2);
    assert(d * again == d * (d * v1) - off);
    assert(-(3 * (d * d)) < off < 3 * (d * d)) by (nonlinear_arith)
        requires
            off == dm * e1 + 2 * (m2 * e2),
            dm == m1 - m2,
            d == m1 + m2,
            m1 > 0,
            m2 > 0,
            -d < e1 < d,
            -d < e2 < d,
    ;
    assert(-(3 * d) < again - d * v1 < 3 * d) by (nonlinear_arith)
        requires
            d > 0,
            d * again == d * (d * v1) - off,
            -(3 * (d * d)) < off < 3 * (d * d),
    ;
    let c = elastic(a, m1, b, m2);
    assert(c == quotient(again, d));
    lemma_quotient_error(again, d);
    assert(-4 < c - v1 < 4) by (nonlinear_arith)
        requires
            d > 0,
            -d < again - d * c < d,
            -(3 * d) < again - d * v1 < 3 * d,
    ;
}

/// Two bodies of equal mass exchange their velocities, exactly.
pub proof fn lemma_elastic_equal_masses(v1: int, v2: int, m: int)
    requires
        m > 0,
    ensures
        elastic(v1, m, v2, m) == v2,
{
    assert(v1 * (m - m) + 2 * m * v2 == (m + m) * v2) by (nonlinear_arith);
    lemma_quotient_of_multiple(v2, m + m);
}

/// Computes `elastic` on machine integers.
fn elastic_component(v1: i64, m1: i128, v2: i64, m2: i128) -> (r: i64)
    requires
        0 < m1 <= 0x4000_0000_0000_0000,
        0 < m2 <= 0x4000_0000_0000_0000,
    ensures
        r as int == saturate(elastic(v1 as int, m1 as int, v2 as int, m2 as int)),
{
    let w1: i128 = v1 as i128;
    let w2: i128 = v2 as i128;
    let dm: i128 = m1 - m2;
    assert(-0x2000_0000_0000_0000_0000_0000_0000_0000 <= w1 * dm
        <= 0x2000_0000_0000_0000_0000_0000_0000_0000) by (nonlinear_arith)
        requires
            -0x8000_0000_0000_0000 <= w1 <= 0x8000_0000_0000_0000,
            -0x4000_0000_0000_0000 <= dm <= 0x4000_0000_0000_0000,
    ;
    assert(0 <= 2 * m2 <= 0x8000_0000_0000_0000);
    let tm: i128 = 2 * m2;
    assert(-0x4000_0000_0000_0000_0000_0000_0000_0000 <= tm * w2
        <= 0x4000_0000_0000_0000_0000_0000_0000_0000) by (nonlinear_arith)
        requires
            -0x8000_0000_0000_0000 <= w2 <= 0x8000_0000_0000_0000,
            0 <= tm <= 0x8000_0000_0000_0000,
    ;
    assert(tm * w2 == 2 * m2 * w2) by (nonlinear_arith)
        requires
            tm == 2 * m2,
    ;
    let n: i128 = w1 * dm + tm * w2;
    narrow(n / (m1 + m2))
}

/// Basic collision processor: walls reflect, and particles collide
/// perfectly elastically
pub struct BasicCollisionProcessor;

impl CollisionProcessor for BasicCollisionProcessor {
    fn process_collision(&self, collision: Collision) {
        match collision {
            Collision::Box(collision) => {
                match collision {
                    BoxCollision::Top(p) => if p.vel.y > 0 {
                        p.vel.y = narrow(-(p.vel.y as i128));
                    },
                    BoxCollision::Right(p) => if p.vel.x > 0 {
                        p.vel.x = narrow(-(p.vel.x as i128));
                    },
                    BoxCollision::Bottom(p) => if p.vel.y < 0 {
                        p.vel.y = narrow(-(p.vel.y as i128));
                    },
                    BoxCollision::Left(p) => if p.vel.x < 0 {
                        p.vel.x = narrow(-(p.vel.x as i128));
                    },
                }
            },
            Collision::Particle(p1, p2) => {
                assert(0 < p1.radius * p1.radius <= 0x4000_0000_0000_0000) by (nonlinear_arith)
                    requires
                        0 < p1.radius <= 0x8000_0000,
                ;
                assert(0 < p2.radius * p2.radius <= 0x4000_0000_0000_0000) by (nonlinear_arith)
                    requires
                        0 < p2.radius <= 0x8000_0000,
                ;
                let m1: i128 = (p1.radius as i128) * (p1.radius as i128);
                let m2: i128 = (p2.radius as i128) * (p2.radius as i128);
                let v1 = Vec2d {
                    x: elastic_component(p1.vel.x, m1, p2.vel.x, m2),
                    y: elastic_component(p1.vel.y, m1, p2.vel.y, m2),
                };
                let v2 = Vec2d {
                    x: elastic_component(p2.vel.x, m2, p1.vel.x, m1),
                    y: elastic_component(p2.vel.y, m2, p1.vel.y, m1),
                };
                p1.vel = v1;
                p2.vel = v2;
            },
        }
    }
}

/// A collision of `p1` and `p2` leaves both with a velocity inside the
/// `i64` range, so that nothing is cut off.
pub open spec fn unsaturated(p1: Particle, p2: Particle) -> bool {
    &&& elastic_velocity(p1, p2).x == elastic(p1.vel.x as int, p1.mass(), p2.vel.x as int, p2.mass())
    &&& elastic_velocity(p1, p2).y == elastic(p1.vel.y as int, p1.mass(), p2.vel.y as int, p2.mass())
    &&& elastic_velocity(p2, p1).x == elastic(p2.vel.x as int, p2.mass(), p1.vel.x as int, p1.mass())
    &&& elastic_velocity(p2, p1).y == elastic(p2.vel.y as int, p2.mass(), p1.vel.y as int, p1.mass())
}

/// Momentum is conserved when the basic processor lets two particles
/// collide, as long as no new velocity leaves the `i64` range: along each
/// axis it changes by less than the sum of the two masses, which is the
/// rounding of the two quotients.
pub proof fn lemma_collision_conserves_momentum(p1: Particle, p2: Particle)
    requires
        p1.wf(),
        p2.wf(),
        unsaturated(p1, p2),
    ensures
        ({
            let (q1, q2) = BasicCollisionProcessor.exchanged(p1, p2);
            let total = p1.mass() + p2.mass();
            &&& -total < (q1.mass() * q1.vel.x + q2.mass() * q2.vel.x) - (p1.mass() * p1.vel.x + p2.mass()
                * p2.vel.x) < total
            &&& -total < (q1.mass() * q1.vel.y + q2.mass() * q2.vel.y) - (p1.mass() * p1.vel.y + p2.mass()
                * p2.vel.y) < total
        }),
{
    assert(p1.mass() > 0 && p2.mass() > 0) by (nonlinear_arith)
        requires
            p1.radius > 0,
            p2.radius > 0,
            p1.mass() == p1.radius * p1.radius,
            p2.mass() == p2.radius * p2.radius,
    ;
    lemma_elastic_momentum(p1.vel.x as int, p1.mass(), p2.vel.x as int, p2.mass());
    lemma_elastic_momentum(p1.vel.y as int, p1.mass(), p2.vel.y as int, p2.mass());
}

/// Two particles of equal radius leave a collision with each other's
/// velocity.
pub proof fn lemma_equal_particles_exchange(p1: Particle, p2: Particle)
    requires
        p1.wf(),
        p2.wf(),
        p1.radius == p2.radius,
    ensures
        BasicCollisionProcessor.exchanged(p1, p2).0.vel == p2.vel,
        BasicCollisionProcessor.exchanged(p1, p2).1.vel == p1.vel,
{
    assert(p1.mass() > 0) by (nonlinear_arith)
        requires
            p1.radius > 0,
            p1.mass() == p1.radius * p1.radius,
    ;
    lemma_elastic_equal_masses(p1.vel.x as int, p2.vel.x as int, p1.mass());
    lemma_elastic_equal_masses(p1.vel.y as int, p2.vel.y as int, p1.mass());
    lemma_elastic_equal_masses(p2.vel.x as int, p1.vel.x as int, p1.mass());
    lemma_elastic_equal_masses(p2.vel.y as int, p1.vel.y as int, p1.mass());
}

} // verus!
