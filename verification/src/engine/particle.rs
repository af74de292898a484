//! The plain data that describes the state of a simulation.
use vstd::prelude::*;
use crate::engine::vec2d::Vec2d;

verus! {

/// The largest radius a particle may have; it keeps the squared radii of two
/// particles, times a velocity, inside 128 bits.
pub const MAX_RADIUS: i64 = 0x8000_0000;

/// An RGBA colour, one byte per channel.
#[derive(Clone, Copy, Debug, PartialEq, Eq, Structural)]
pub struct Color {
    pub red: u8,
    pub green: u8,
    pub blue: u8,
    pub alpha: u8,
}

/// Struct describing a single particle
#[derive(Clone, Copy, Debug, PartialEq, Eq, Structural)]
pub struct Particle {
    pub pos: Vec2d,
    pub radius: i64,
    pub color: Color,
    pub vel: Vec2d,
    /// Reserved for forces that act on one particle; nothing reads it yet.
    pub acc: Vec2d,
}

impl Particle {
    /// The radius is positive and at most `MAX_RADIUS`.
    pub open spec fn wf(self) -> bool {
        0 < self.radius <= MAX_RADIUS
    }

    /// The mass, taken as proportional to the disc's area.
    pub open spec fn mass(self) -> int {
        self.radius * self.radius
    }

    /// `other` is this particle with, at most, another velocity.
    pub open spec fn same_body(self, other: Particle) -> bool {
        &&& other.pos == self.pos
        &&& other.radius == self.radius
        &&& other.color == self.color
        &&& other.acc == self.acc
    }

    /// The two discs overlap: their centres are closer than the sum of the radii.
    pub open spec fn overlaps(self, other: Particle) -> bool {
        let dx = self.pos.x - other.pos.x;
        let dy = self.pos.y - other.pos.y;
        let reach = self.radius + other.radius;
        dx * dx + dy * dy < reach * reach
    }

    /// Checks whether the two discs overlap.
    pub fn collides_with(&self, other: &Particle) -> (hit: bool)
        requires
            self.wf(),
            other.wf(),
        ensures
            hit == self.overlaps(*other),
    {
        let dx: i128 = self.pos.x as i128 - other.pos.x as i128;
        let dy: i128 = self.pos.y as i128 - other.pos.y as i128;
        let reach: i128 = self.radius as i128 + other.radius as i128;
        if dx >= reach || dx <= -reach || dy >= reach || dy <= -reach {
            assert(dx * dx + dy * dy >= reach * reach) by (nonlinear_arith)
                requires
                    reach > 0,
                    dx >= reach || dx <= -reach || dy >= reach || dy <= -reach,
            ;
            false
        } else {
            assert(0 <= dx * dx <= 0x1_0000_0000_0000_0000 && 0 <= dy * dy <= 0x1_0000_0000_0000_0000
                && 0 <= reach * reach <= 0x1_0000_0000_0000_0000) by (nonlinear_arith)
                requires
                    -reach < dx < reach,
                    -reach < dy < reach,
                    0 < reach <= 0x1_0000_0000,
            ;
            dx * dx + dy * dy < reach * reach
        }
    }
}

/// Every particle of `ps` is well formed.
pub open spec fn all_wf(ps: Seq<Particle>) -> bool {
    forall|i: int| 0 <= i < ps.len() ==> (#[trigger] ps[i]).wf()
}

/// `after` holds the particles of `before`, each with at most another velocity.
pub open spec fn same_bodies(before: Seq<Particle>, after: Seq<Particle>) -> bool {
    &&& after.len() == before.len()
    &&& forall|i: int| 0 <= i < before.len() ==> (#[trigger] before[i]).same_body(after[i])
}

/// Struct for describing a kind of particles which will be spawned in the simulation
#[derive(Clone, Copy, Debug, PartialEq, Eq, Structural)]
pub struct ParticleTemplate {
    pub radius: i64,
    /// The speed every particle of this kind starts with.
    pub vel: i64,
    pub color: Color,
    pub count: usize,
}

/// Struct for holding area dimensions
#[derive(Clone, Copy, Debug, PartialEq, Eq, Structural)]
pub struct Area {
    pub size: Vec2d,
}

impl Area {
    /// Both sides of the box are longer than zero.
    pub open spec fn wf(self) -> bool {
        self.size.x > 0 && self.size.y > 0
    }
}

} // verus!
