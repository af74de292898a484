//! Contacts between particles and the walls of the box.
use vstd::prelude::*;
use crate::engine::collider::{BoxCollision, Collision, CollisionDetector, CollisionProcessor, Wall};
use crate::engine::particle::{Area, Particle, all_wf, same_bodies};

verus! {

/// The wall that `p` touches along the x-axis, the left one first.
pub open spec fn wall_x(area: Area, p: Particle) -> Option<Wall> {
    if p.pos.x - p.radius <= 0 {
        Some(Wall::Left)
    } else if p.pos.x + p.radius >= area.size.x {
        Some(Wall::Right)
    } else {
        None
    }
}

/// The wall that `p` touches along the y-axis, the bottom one first.
pub open spec fn wall_y(area: Area, p: Particle) -> Option<Wall> {
    if p.pos.y - p.radius <= 0 {
        Some(Wall::Bottom)
    } else if p.pos.y + p.radius >= area.size.y {
        Some(Wall::Top)
    } else {
        None
    }
}

/// `p` after `processor` has seen the contact `wall`, if there is one.
pub open spec fn contact<C: CollisionProcessor>(processor: C, wall: Option<Wall>, p: Particle) -> Particle {
    match wall {
        Some(w) => processor.bounced(w, p),
        None => p,
    }
}

/// `p` after its contacts with the walls: the one along x, then the one along y.
pub open spec fn walled<C: CollisionProcessor>(processor: C, area: Area, p: Particle) -> Particle {
    let q = contact(processor, wall_x(area, p), p);
    contact(processor, wall_y(area, q), q)
}

/// Every particle of `ps` after its contacts with the walls.
pub open spec fn box_pass<C: CollisionProcessor>(processor: C, area: Area, ps: Seq<Particle>) -> Seq<
    Particle,
> {
    Seq::new(ps.len(), |i: int| walled(processor, area, ps[i]))
}

/// A collider which only detects collisions between particles and the box
pub struct BoxCollider<C: CollisionProcessor> {
    pub processor: C,
}

impl<C: CollisionProcessor> BoxCollider<C> {
    /// Creates a new BoxCollider which uses the given processor
    pub fn new(processor: C) -> (collider: BoxCollider<C>)
        ensures
            collider.processor == processor,
    {
        BoxCollider { processor }
    }
}

impl<C: CollisionProcessor> CollisionDetector for BoxCollider<C> {
    open spec fn resolves(&self, area: Area, before: Seq<Particle>, after: Seq<Particle>) -> bool {
        after == box_pass(self.processor, area, before)
    }

    fn process_collisions(&self, area: &Area, particles: &mut Vec<Particle>) {
        let n: usize = particles.len();
        let mut k: usize = 0;
        while k < n
            invariant
                k <= n,
                n == old(particles)@.len(),
                particles@.len() == n,
                all_wf(old(particles)@),
                forall|i: int|
                    0 <= i < k ==> particles@[i] == walled(self.processor, *area, #[trigger] old(particles)@[i]),
                forall|i: int| 0 <= i < k ==> (#[trigger] old(particles)@[i]).same_body(particles@[i]),
                forall|i: int| k <= i < n ==> particles@[i] == #[trigger] old(particles)@[i],
            decreases n - k,
        {
            let p: Particle = particles[k];
            assert(particles@[k as int] == old(particles)@[k as int]);
            assert(old(particles)@[k as int].wf());
            if p.pos.x as i128 - p.radius as i128 <= 0 {
                self.processor.process_collision(Collision::Box(BoxCollision::Left(&mut particles[k])));
            } else if p.pos.x as i128 + p.radius as i128 >= area.size.x as i128 {
                self.processor.process_collision(Collision::Box(BoxCollision::Right(&mut particles[k])));
            }
            let q: Particle = particles[k];
            if q.pos.y as i128 - q.radius as i128 <= 0 {
                self.processor.process_collision(Collision::Box(BoxCollision::Bottom(&mut particles[k])));
            } else if q.pos.y as i128 + q.radius as i128 >= area.size.y as i128 {
                self.processor.process_collision(Collision::Box(BoxCollision::Top(&mut particles[k])));
            }
            k += 1;
        }
        assert(particles@ =~= box_pass(self.processor, *area, old(particles)@));
    }
}

/// No particle of `ps` touches a wall.
pub open spec fn all_clear(area: Area, ps: Seq<Particle>) -> bool {
    forall|i: int| 0 <= i < ps.len() ==> wall_x(area, #[trigger] ps[i]) is None && wall_y(area, ps[i]) is None
}

/// Particles that touch no wall pass the box untouched.
pub proof fn lemma_box_pass_free<C: CollisionProcessor>(processor: C, area: Area, ps: Seq<Particle>)
    requires
        all_clear(area, ps),
    ensures
        box_pass(processor, area, ps) == ps,
{
    assert(box_pass(processor, area, ps) =~= ps);
}

} // verus!
