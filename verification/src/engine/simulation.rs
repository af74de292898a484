//! The simulation: particles in a box, advanced one tick at a time.
use vstd::prelude::*;
use crate::engine::collider::box_collider::all_clear;
use crate::engine::collider::sweep_collider::{SweepCollider, all_apart, lemma_nothing_to_resolve};
use crate::engine::collider::{CollisionDetector, CollisionProcessor};
use crate::engine::particle::{Area, MAX_RADIUS, Particle, ParticleTemplate, all_wf, same_bodies};
use crate::engine::spawn::{
    HEADING_UNIT, lemma_grid_cell, candidate_positions, cell_count, cells_along, centre_along, count_requested,
    distinct_within, grid, is_unit_heading, launch_velocity, least, lemma_grid_apart, lemma_grid_inside,
    lemma_laid_out_len, lemma_laid_out_member, lemma_launch_speed, population, requested, spawn,
    spawn_outcome, unit_heading,
};
use crate::engine::vec2d::Vec2d;

verus! {

/// Why a simulation cannot be set up.
#[derive(Clone, Copy, Debug, PartialEq, Eq, Structural)]
pub enum ConfigError {
    /// A side of the area is not longer than zero.
    EmptyArea,
    /// A radius is not above zero, or is above `MAX_RADIUS`.
    RadiusOutOfRange,
    /// The area holds more cells than can be counted.
    GridTooLarge,
    /// A heading is not as long as one `HEADING_UNIT`.
    HeadingOffUnit,
}

/// Every heading is as long as one `HEADING_UNIT`.
pub open spec fn unit_headings(headings: Seq<Vec2d>) -> bool {
    forall|k: int| 0 <= k < headings.len() ==> unit_heading(#[trigger] headings[k])
}

/// Every template has a radius above zero and at most `MAX_RADIUS`.
pub open spec fn radii_in_range(templates: Seq<ParticleTemplate>) -> bool {
    forall|t: int| 0 <= t < templates.len() ==> 0 < (#[trigger] templates[t]).radius <= MAX_RADIUS
}

/// The largest radius among the templates; 1 if there is none. (Radii are
/// whole numbers above zero, so none lies below 1.)
pub open spec fn largest_radius(templates: Seq<ParticleTemplate>) -> int
    decreases templates.len(),
{
    if templates.len() == 0 {
        1
    } else {
        let rest = largest_radius(templates.drop_last());
        if templates.last().radius > rest {
            templates.last().radius as int
        } else {
            rest
        }
    }
}

/// The reason, if there is one, for which no simulation can be made of
/// these parameters.
pub open spec fn config_error(
    area_size: Vec2d,
    templates: Seq<ParticleTemplate>,
    headings: Seq<Vec2d>,
) -> Option<ConfigError> {
    if area_size.x <= 0 || area_size.y <= 0 {
        Some(ConfigError::EmptyArea)
    } else if !radii_in_range(templates) {
        Some(ConfigError::RadiusOutOfRange)
    } else if cell_count(Area { size: area_size }, largest_radius(templates)) > usize::MAX {
        Some(ConfigError::GridTooLarge)
    } else if !unit_headings(headings) {
        Some(ConfigError::HeadingOffUnit)
    } else {
        None
    }
}

/// No template has a radius above the largest.
proof fn lemma_largest_radius(templates: Seq<ParticleTemplate>, t: int)
    requires
        0 <= t < templates.len(),
    ensures
        templates[t].radius <= largest_radius(templates),
    decreases templates.len(),
{
    if t < templates.len() - 1 {
        lemma_largest_radius(templates.drop_last(), t);
    }
}

/// The largest radius is a radius that a particle may have.
proof fn lemma_largest_radius_in_range(templates: Seq<ParticleTemplate>)
    requires
        radii_in_range(templates),
    ensures
        0 < largest_radius(templates) <= MAX_RADIUS,
    decreases templates.len(),
{
    if templates.len() > 0 {
        let front = templates.drop_last();
        assert forall|t: int| 0 <= t < front.len() implies 0 < (#[trigger] front[t]).radius <= MAX_RADIUS by {
            assert(front[t] == templates[t]);
        }
        lemma_largest_radius_in_range(front);
        assert(0 < templates[templates.len() - 1].radius <= MAX_RADIUS);
    }
}

/// Particles start inside the box: none reaches over a wall, whichever
/// distinct cells of the grid were drawn.
pub proof fn lemma_spawned_inside(
    area_size: Vec2d,
    templates: Seq<ParticleTemplate>,
    picks: Seq<usize>,
    headings: Seq<Vec2d>,
    a: int,
)
    requires
        config_error(area_size, templates, headings) is None,
        distinct_within(picks, grid(Area { size: area_size }, largest_radius(templates)).len() as int),
        0 <= a < population(
            templates,
            grid(Area { size: area_size }, largest_radius(templates)),
            picks,
            headings,
        ).len(),
    ensures
        ({
            let p = population(
                templates,
                grid(Area { size: area_size }, largest_radius(templates)),
                picks,
                headings,
            )[a];
            &&& 0 <= p.pos.x - p.radius
            &&& p.pos.x + p.radius <= area_size.x
            &&& 0 <= p.pos.y - p.radius
            &&& p.pos.y + p.radius <= area_size.y
        }),
{
    let area = Area { size: area_size };
    let largest = largest_radius(templates);
    let positions = grid(area, largest);
    lemma_largest_radius_in_range(templates);
    lemma_laid_out_len(templates, positions, picks, headings);
    let t = lemma_laid_out_member(templates, positions, picks, headings, a);
    lemma_largest_radius(templates, t);
    assert(picks[a] < positions.len());
    lemma_grid_inside(area, largest, picks[a] as int);
}

/// Particles start on the cells of the grid: each stands at the centre of
/// a cell of side twice the largest radius, column `i` and row `j` say, at
/// `r + 2 * r * i` and `r + 2 * r * j`.
pub proof fn lemma_spawned_on_cell(
    area_size: Vec2d,
    templates: Seq<ParticleTemplate>,
    picks: Seq<usize>,
    headings: Seq<Vec2d>,
    a: int,
) -> (cell: (int, int))
    requires
        config_error(area_size, templates, headings) is None,
        distinct_within(picks, grid(Area { size: area_size }, largest_radius(templates)).len() as int),
        0 <= a < population(
            templates,
            grid(Area { size: area_size }, largest_radius(templates)),
            picks,
            headings,
        ).len(),
    ensures
        ({
            let r = largest_radius(templates);
            let p = population(templates, grid(Area { size: area_size }, r), picks, headings)[a];
            &&& 0 <= cell.0 < cells_along(area_size.x as int, r)
            &&& 0 <= cell.1 < cells_along(area_size.y as int, r)
            &&& picks[a] == cell.0 * cells_along(area_size.y as int, r) + cell.1
            &&& p.pos.x == r + 2 * r * cell.0
            &&& p.pos.y == r + 2 * r * cell.1
        }),
{
    let area = Area { size: area_size };
    let largest = largest_radius(templates);
    let positions = grid(area, largest);
    lemma_largest_radius_in_range(templates);
    lemma_laid_out_len(templates, positions, picks, headings);
    let t = lemma_laid_out_member(templates, positions, picks, headings, a);
    assert(picks[a] < positions.len());
    lemma_grid_cell(area, largest, picks[a] as int)
}

/// Particles start with the speed of their template, up to rounding: the
/// velocity of particle `a` is what `lemma_launch_speed` says of the speed
/// of the template `t` that it belongs to and of its heading.
pub proof fn lemma_spawned_speed(
    area_size: Vec2d,
    templates: Seq<ParticleTemplate>,
    picks: Seq<usize>,
    headings: Seq<Vec2d>,
    a: int,
) -> (t: int)
    requires
        config_error(area_size, templates, headings) is None,
        0 <= a < population(
            templates,
            grid(Area { size: area_size }, largest_radius(templates)),
            picks,
            headings,
        ).len(),
        forall|t: int|
            0 <= t < templates.len() ==> -0x4000_0000_0000_0000 <= (#[trigger] templates[t]).vel
                <= 0x4000_0000_0000_0000,
    ensures
        0 <= t < templates.len(),
        ({
            let p = population(
                templates,
                grid(Area { size: area_size }, largest_radius(templates)),
                picks,
                headings,
            )[a];
            let speed = templates[t].vel as int;
            let unit = HEADING_UNIT as int;
            &&& p.radius == templates[t].radius
            &&& p.vel == launch_velocity(speed, headings[a])
            &&& unit * unit * p.vel.norm_squared() <= speed * speed * ((unit + 1) * (unit + 1))
            &&& speed * speed * ((unit - 1) * (unit - 1)) < unit * unit * ((vstd::math::abs(p.vel.x as int) + 1)
                * (vstd::math::abs(p.vel.x as int) + 1) + (vstd::math::abs(p.vel.y as int) + 1) * (
            vstd::math::abs(p.vel.y as int) + 1))
        }),
{
    let positions = grid(Area { size: area_size }, largest_radius(templates));
    lemma_laid_out_len(templates, positions, picks, headings);
    let t = lemma_laid_out_member(templates, positions, picks, headings, a);
    assert(unit_heading(headings[a]));
    lemma_launch_speed(templates[t].vel as int, headings[a]);
    t
}

/// Particles start apart: no two of them overlap, whichever distinct cells
/// of the grid were drawn.
pub proof fn lemma_spawned_apart(
    area_size: Vec2d,
    templates: Seq<ParticleTemplate>,
    picks: Seq<usize>,
    headings: Seq<Vec2d>,
    a: int,
    b: int,
)
    requires
        config_error(area_size, templates, headings) is None,
        distinct_within(picks, grid(Area { size: area_size }, largest_radius(templates)).len() as int),
        0 <= a < b < population(
            templates,
            grid(Area { size: area_size }, largest_radius(templates)),
            picks,
            headings,
        ).len(),
    ensures
        ({
            let spawned = population(
                templates,
                grid(Area { size: area_size }, largest_radius(templates)),
                picks,
                headings,
            );
            !spawned[a].overlaps(spawned[b]) && spawned[a].pos != spawned[b].pos
        }),
{
    let area = Area { size: area_size };
    let largest = largest_radius(templates);
    let positions = grid(area, largest);
    lemma_largest_radius_in_range(templates);
    lemma_laid_out_len(templates, positions, picks, headings);
    let ta = lemma_laid_out_member(templates, positions, picks, headings, a);
    let tb = lemma_laid_out_member(templates, positions, picks, headings, b);
    lemma_largest_radius(templates, ta);
    lemma_largest_radius(templates, tb);
    assert(picks[a] < positions.len() && picks[b] < positions.len() && picks[a] != picks[b]);
    lemma_grid_apart(area, largest, picks[a] as int, picks[b] as int);
    let pa = positions[picks[a] as int];
    let pb = positions[picks[b] as int];
    let dx = pa.x - pb.x;
    let dy = pa.y - pb.y;
    let reach = templates[ta].radius + templates[tb].radius;
    assert(0 < templates[ta].radius && 0 < templates[tb].radius);
    assert(dx * dx + dy * dy >= reach * reach) by (nonlinear_arith)
        requires
            0 < reach <= 2 * largest,
            dx >= 2 * largest || -dx >= 2 * largest || dy >= 2 * largest || -dy >= 2 * largest,
    ;
}

/// `p` one tick of length `dt` later, were it alone: it moves along its
/// velocity, then gravity changes the velocity.
pub open spec fn moved(p: Particle, gravity: Vec2d, dt: int) -> Particle {
    Particle { pos: p.pos.plus(p.vel.scaled(dt)), vel: p.vel.plus(gravity.scaled(dt)), ..p }
}

/// Every particle of `ps` one tick later.
pub open spec fn advanced(ps: Seq<Particle>, gravity: Vec2d, dt: int) -> Seq<Particle> {
    Seq::new(ps.len(), |i: int| moved(ps[i], gravity, dt))
}

/// `p` after `n` ticks of length `dt`, were it alone.
pub open spec fn drifted(p: Particle, gravity: Vec2d, dt: int, n: nat) -> Particle
    decreases n,
{
    if n == 0 {
        p
    } else {
        moved(drifted(p, gravity, dt, (n - 1) as nat), gravity, dt)
    }
}

/// `v` lies in the `i64` range.
pub open spec fn fits(v: int) -> bool {
    i64::MIN <= v <= i64::MAX
}

/// Without gravity a particle moves in a straight line: after `n` ticks of
/// length `dt` its position has advanced by `n` times `vel * dt`, exactly,
/// and its velocity is the same. This holds as long as the step and the
/// position reached lie in the `i64` range.
pub proof fn lemma_linear_motion(p: Particle, dt: int, n: nat)
    requires
        fits(p.vel.x * dt),
        fits(p.vel.y * dt),
        fits(p.pos.x + n * (p.vel.x * dt)),
        fits(p.pos.y + n * (p.vel.y * dt)),
    ensures
        drifted(p, Vec2d { x: 0, y: 0 }, dt, n).pos.x == p.pos.x + n * (p.vel.x * dt),
        drifted(p, Vec2d { x: 0, y: 0 }, dt, n).pos.y == p.pos.y + n * (p.vel.y * dt),
        drifted(p, Vec2d { x: 0, y: 0 }, dt, n).vel == p.vel,
    decreases n,
{
    if n > 0 {
        let sx = p.vel.x * dt;
        let sy = p.vel.y * dt;
        let m = (n - 1) as nat;
        assert(n * sx == m * sx + sx && n * sy == m * sy + sy && (sx >= 0 ==> 0 <= m * sx <= n * sx) && (sx
            <= 0 ==> 0 >= m * sx >= n * sx) && (sy >= 0 ==> 0 <= m * sy <= n * sy) && (sy <= 0 ==> 0 >= m
            * sy >= n * sy)) by (nonlinear_arith)
            requires
                m == n - 1,
                m >= 0,
        ;
        lemma_linear_motion(p, dt, m);
        assert(0 * dt == 0) by (nonlinear_arith);
        let zero = Vec2d { x: 0, y: 0 };
        let q = drifted(p, zero, dt, m);
        assert(drifted(p, zero, dt, n) == moved(q, zero, dt));
        assert(q.vel.scaled(dt) == Vec2d { x: sx as i64, y: sy as i64 });
        assert(zero.scaled(dt) == zero);
    } else {
        assert(n * (p.vel.x * dt) == 0 && n * (p.vel.y * dt) == 0) by (nonlinear_arith)
            requires
                n == 0,
        ;
    }
}

/// `trace` holds the particles of a simulation tick after tick: each entry
/// is what one tick of length `dt` may leave of the entry before it.
pub open spec fn is_run<C: CollisionDetector>(
    collider: C,
    area: Area,
    gravity: Vec2d,
    dt: int,
    trace: Seq<Seq<Particle>>,
) -> bool {
    forall|k: int|
        0 <= k < trace.len() - 1 ==> collider.resolves(area, advanced(#[trigger] trace[k], gravity, dt), trace[k + 1])
}

/// As long as no particle touches a wall and no two overlap, every particle
/// flies as if it were alone: after `k` ticks it is where `k` ticks of free
/// flight take it, with the velocity that gravity has given it.
pub proof fn lemma_free_run<C: CollisionProcessor, B: CollisionProcessor>(
    collider: SweepCollider<C, B>,
    area: Area,
    gravity: Vec2d,
    dt: int,
    trace: Seq<Seq<Particle>>,
    k: int,
)
    requires
        is_run(collider, area, gravity, dt, trace),
        0 <= k < trace.len(),
        forall|m: int|
            0 <= m < k ==> all_clear(area, advanced(#[trigger] trace[m], gravity, dt)) && all_apart(
                advanced(trace[m], gravity, dt),
            ),
    ensures
        trace[k].len() == trace[0].len(),
        forall|i: int| 0 <= i < trace[0].len() ==> trace[k][i] == drifted(#[trigger] trace[0][i], gravity, dt, k as nat),
    decreases k,
{
    if k > 0 {
        lemma_free_run(collider, area, gravity, dt, trace, k - 1);
        let ahead = advanced(trace[k - 1], gravity, dt);
        assert(collider.resolves(area, ahead, trace[k]));
        lemma_nothing_to_resolve(collider, area, ahead, trace[k]);
        assert forall|i: int| 0 <= i < trace[0].len() implies trace[k][i] == drifted(
            #[trigger] trace[0][i],
            gravity,
            dt,
            k as nat,
        ) by {
            assert(trace[k - 1][i] == drifted(trace[0][i], gravity, dt, (k - 1) as nat));
        }
    }
}

/// What a simulation holds, as plain values.
pub struct State<C> {
    pub area: Area,
    pub particles: Seq<Particle>,
    pub gravity: Vec2d,
    pub collider: C,
    pub truncated: bool,
}

/// A struct for holding the simulation
pub struct Simulation<C: CollisionDetector> {
    area: Area,
    particles: Vec<Particle>,
    gravity: Vec2d,
    collider: C,
    truncated: bool,
}

impl<C: CollisionDetector> View for Simulation<C> {
    type V = State<C>;

    closed spec fn view(&self) -> State<C> {
        State {
            area: self.area,
            particles: self.particles@,
            gravity: self.gravity,
            collider: self.collider,
            truncated: self.truncated,
        }
    }
}

impl<C: CollisionDetector> Simulation<C> {
    /// The area has positive sides and every particle a radius in range.
    pub open spec fn wf(&self) -> bool {
        self@.area.wf() && all_wf(self@.particles)
    }

    /// Creates a new simulation with given parameters
    ///
    /// The particles start on distinct cells of a grid of cells as wide as the
    /// largest particle, chosen at random, and particle `k` moves along
    /// `headings[k]` with the speed of its template. Every heading has to be
    /// one `HEADING_UNIT` long. If templates specify more particles than the
    /// area can fit, or than there are headings, the rest of the particles
    /// will be omitted, and `truncated` tells so.
    pub fn new(
        area_size: Vec2d,
        gravity: Vec2d,
        templates: Vec<ParticleTemplate>,
        headings: Vec<Vec2d>,
        collider: C,
    ) -> (made: Result<Simulation<C>, ConfigError>)
        ensures
            match made {
                Ok(sim) => {
                    &&& config_error(area_size, templates@, headings@) is None
                    &&& sim.wf()
                    &&& sim@.area == (Area { size: area_size })
                    &&& sim@.gravity == gravity
                    &&& sim@.collider == collider
                    &&& sim@.particles.len() == least(
                        requested(templates@),
                        cell_count(Area { size: area_size }, largest_radius(templates@)),
                        headings@.len() as int,
                    )
                    &&& sim@.truncated == (sim@.particles.len() < requested(templates@))
                    &&& exists|picks: Seq<usize>| #[trigger]
                        spawn_outcome(
                            templates@,
                            grid(Area { size: area_size }, largest_radius(templates@)),
                            picks,
                            headings@,
                            sim@.particles,
                        )
                },
                Err(e) => config_error(area_size, templates@, headings@) == Some(e),
            },
    {
        if area_size.x <= 0 || area_size.y <= 0 {
            return Err(ConfigError::EmptyArea);
        }
        let area = Area { size: area_size };
        let n: usize = templates.len();
        let mut max_size: i64 = 1;
        let mut t: usize = 0;
        assert(templates@.take(0) =~= Seq::<ParticleTemplate>::empty());
        while t < n
            invariant
                t <= n,
                n == templates@.len(),
                area_size.x > 0 && area_size.y > 0,
                radii_in_range(templates@.take(t as int)),
                max_size == largest_radius(templates@.take(t as int)),
                0 < max_size <= MAX_RADIUS,
            decreases n - t,
        {
            let radius: i64 = templates[t].radius;
            if radius <= 0 || radius > MAX_RADIUS {
                assert(!(0 < templates@[t as int].radius <= MAX_RADIUS));
                return Err(ConfigError::RadiusOutOfRange);
            }
            assert(templates@.take(t + 1).drop_last() =~= templates@.take(t as int));
            if radius > max_size {
                max_size = radius;
            }
            t += 1;
        }
        assert(templates@.take(n as int) =~= templates@);

        let width: i64 = area_size.x / (2 * max_size);
        let height: i64 = area_size.y / (2 * max_size);
        assert(0 <= width * height <= 0x4000_0000_0000_0000_0000_0000_0000_0000) by (nonlinear_arith)
            requires
                0 <= width <= 0x8000_0000_0000_0000,
                0 <= height <= 0x8000_0000_0000_0000,
        ;
        if width as i128 * height as i128 > usize::MAX as i128 {
            return Err(ConfigError::GridTooLarge);
        }
        let given: usize = headings.len();
        let mut h: usize = 0;
        while h < given
            invariant
                h <= given,
                given == headings@.len(),
                forall|k: int| 0 <= k < h ==> unit_heading(#[trigger] headings@[k]),
                config_error(area_size, templates@, headings@) is None || config_error(
                    area_size,
                    templates@,
                    headings@,
                ) == Some(ConfigError::HeadingOffUnit),
            decreases given - h,
        {
            if !is_unit_heading(&headings[h]) {
                assert(!unit_heading(headings@[h as int]));
                return Err(ConfigError::HeadingOffUnit);
            }
            h += 1;
        }
        let positions: Vec<Vec2d> = candidate_positions(&area, max_size);
        let particles: Vec<Particle> = spawn(&templates, &positions, &headings);
        let wanted: u128 = count_requested(&templates);
        let truncated: bool = (particles.len() as u128) < wanted;
        let ghost born = particles@;
        proof {
            let picks = choose|picks: Seq<usize>| #[trigger]
                spawn_outcome(templates@, positions@, picks, headings@, particles@);
            lemma_laid_out_len(templates@, positions@, picks, headings@);
            assert forall|k: int| 0 <= k < particles@.len() implies (#[trigger] particles@[k]).wf() by {
                let t = lemma_laid_out_member(templates@, positions@, picks, headings@, k);
                assert(0 < templates@[t].radius <= MAX_RADIUS);
            }
            assert(config_error(area_size, templates@, headings@) is None);
            assert(spawn_outcome(
                templates@,
                grid(area, largest_radius(templates@)),
                picks,
                headings@,
                particles@,
            ));
        }
        let sim = Simulation { area, particles, gravity, collider, truncated };
        assert(sim@.particles == born && sim@.area == area && sim@.gravity == gravity);
        assert(sim.wf());
        assert(sim@.truncated == (born.len() < requested(templates@)));
        assert(born.len() == least(requested(templates@), cell_count(area, max_size as int), headings@.len() as int));
        Ok(sim)
    }

    /// Creates a new simulation of the given particles.
    pub fn from_particles(area_size: Vec2d, gravity: Vec2d, particles: Vec<Particle>, collider: C) -> (made: Result<
        Simulation<C>,
        ConfigError,
    >)
        ensures
            match made {
                Ok(sim) => {
                    &&& area_size.x > 0 && area_size.y > 0
                    &&& sim.wf()
                    &&& sim@ == (State {
                        area: Area { size: area_size },
                        particles: particles@,
                        gravity,
                        collider,
                        truncated: false,
                    })
                },
                Err(e) => if area_size.x <= 0 || area_size.y <= 0 {
                    e == ConfigError::EmptyArea
                } else {
                    e == ConfigError::RadiusOutOfRange && !all_wf(particles@)
                },
            },
    {
        if area_size.x <= 0 || area_size.y <= 0 {
            return Err(ConfigError::EmptyArea);
        }
        let n: usize = particles.len();
        let mut k: usize = 0;
        while k < n
            invariant
                k <= n,
                n == particles@.len(),
                area_size.x > 0 && area_size.y > 0,
                forall|i: int| 0 <= i < k ==> (#[trigger] particles@[i]).wf(),
            decreases n - k,
        {
            if particles[k].radius <= 0 || particles[k].radius > MAX_RADIUS {
                assert(!particles@[k as int].wf());
                return Err(ConfigError::RadiusOutOfRange);
            }
            k += 1;
        }
        Ok(Simulation { area: Area { size: area_size }, particles, gravity, collider, truncated: false })
    }

    /// Returns a reference to the particles
    pub fn particles(&self) -> (particles: &Vec<Particle>)
        ensures
            particles@ == self@.particles,
    {
        &self.particles
    }

    /// Returns a reference to the area
    pub fn area(&self) -> (area: &Area)
        ensures
            *area == self@.area,
    {
        &self.area
    }

    /// Tells whether fewer particles were spawned than the templates asked for.
    pub fn truncated(&self) -> (truncated: bool)
        ensures
            truncated == self@.truncated,
    {
        self.truncated
    }

    /// Updates state of the simulation: every particle moves for `dt` ticks,
    /// then the detector resolves the collisions.
    pub fn update(&mut self, dt: i64)
        requires
            old(self).wf(),
        ensures
            final(self).wf(),
            final(self)@.area == old(self)@.area,
            final(self)@.gravity == old(self)@.gravity,
            final(self)@.truncated == old(self)@.truncated,
            final(self)@.collider == old(self)@.collider,
            old(self)@.collider.resolves(
                old(self)@.area,
                advanced(old(self)@.particles, old(self)@.gravity, dt as int),
                final(self)@.particles,
            ),
            same_bodies(
                advanced(old(self)@.particles, old(self)@.gravity, dt as int),
                final(self)@.particles,
            ),
            final(self)@.particles.len() == old(self)@.particles.len(),
            forall|i: int|
                0 <= i < old(self)@.particles.len() ==> (#[trigger] final(self)@.particles[i]).radius == old(
                    self,
                )@.particles[i].radius,
    {
        let n: usize = self.particles.len();
        let mut k: usize = 0;
        while k < n
            invariant
                k <= n,
                n == old(self).particles@.len(),
                self.particles@.len() == n,
                self.area == old(self).area,
                self.gravity == old(self).gravity,
                self.truncated == old(self).truncated,
                self.collider == old(self).collider,
                forall|i: int|
                    0 <= i < k ==> self.particles@[i] == moved(
                        #[trigger] old(self).particles@[i],
                        self.gravity,
                        dt as int,
                    ),
                forall|i: int| k <= i < n ==> self.particles@[i] == #[trigger] old(self).particles@[i],
            decreases n - k,
        {
            let mut particle: Particle = self.particles[k];
            particle.pos = particle.pos + particle.vel * dt;
            particle.vel = particle.vel + self.gravity * dt;
            self.particles[k] = particle;
            k += 1;
        }
        let ghost stepped = self.particles@;
        assert(stepped =~= advanced(old(self)@.particles, old(self)@.gravity, dt as int));
        assert forall|i: int| 0 <= i < stepped.len() implies (#[trigger] stepped[i]).wf() by {
            assert(old(self).particles@[i].wf());
        }
        self.collider.process_collisions(&self.area, &mut self.particles);
        assert forall|i: int| 0 <= i < stepped.len() implies (#[trigger] self.particles@[i]).wf()
            && self.particles@[i].radius == old(self).particles@[i].radius by {
            assert(stepped[i].same_body(self.particles@[i]));
            assert(stepped[i].wf());
        }
    }
}

} // verus!
