use particle_simulation::engine::particle::MAX_RADIUS;
use particle_simulation::engine::spawn::{
    candidate_positions, count_requested, is_unit_heading, populate, spawn, HEADING_UNIT,
};
use particle_simulation::engine::{
    Area, BasicCollisionProcessor, BoxCollider, Color, ConfigError, Particle, ParticleTemplate, Simulation,
    SweepCollider, Vec2d,
};

const BLACK: Color = Color { red: 0, green: 0, blue: 0, alpha: 255 };
const WHITE: Color = Color { red: 255, green: 255, blue: 255, alpha: 255 };

type Sweeper = SweepCollider<BasicCollisionProcessor, BasicCollisionProcessor>;

fn particle(x: i64, y: i64, radius: i64, vx: i64, vy: i64) -> Particle {
    Particle { pos: Vec2d::new(x, y), radius, color: BLACK, vel: Vec2d::new(vx, vy), acc: Vec2d::new(0, 0) }
}

fn sweeper() -> Sweeper {
    SweepCollider::new(BasicCollisionProcessor, BoxCollider::new(BasicCollisionProcessor))
}

fn template(radius: i64, vel: i64, count: usize) -> ParticleTemplate {
    ParticleTemplate { radius, vel, color: BLACK, count }
}

fn east(n: usize) -> Vec<Vec2d> {
    vec![Vec2d::new(HEADING_UNIT, 0); n]
}

fn simulation(size: i64, gravity: Vec2d, particles: Vec<Particle>) -> Simulation<Sweeper> {
    Simulation::from_particles(Vec2d::new(size, size), gravity, particles, sweeper()).unwrap()
}

#[test]
fn particles_move_in_a_straight_line() {
    let mut sim = simulation(
        1_000_000,
        Vec2d::new(0, 0),
        vec![particle(1000, 2000, 10, 7, -3), particle(5000, 5000, 20, -11, 13)],
    );
    for tick in 1..=50 {
        sim.update(2);
        assert_eq!(sim.particles()[0].pos, Vec2d::new(1000 + 7 * 2 * tick, 2000 - 3 * 2 * tick));
        assert_eq!(sim.particles()[0].vel, Vec2d::new(7, -3));
        assert_eq!(sim.particles()[1].pos, Vec2d::new(5000 - 11 * 2 * tick, 5000 + 13 * 2 * tick));
        assert_eq!(sim.particles()[1].vel, Vec2d::new(-11, 13));
    }
}

#[test]
fn gravity_changes_the_velocity_after_the_move() {
    let mut sim = simulation(1_000_000, Vec2d::new(1, -100), vec![particle(1000, 500_000, 10, 50, 0)]);
    sim.update(3);
    assert_eq!(sim.particles()[0].pos, Vec2d::new(1150, 500_000));
    assert_eq!(sim.particles()[0].vel, Vec2d::new(53, -300));
    sim.update(3);
    assert_eq!(sim.particles()[0].pos, Vec2d::new(1309, 499_100));
    assert_eq!(sim.particles()[0].vel, Vec2d::new(56, -600));
}

#[test]
fn update_keeps_radius_colour_and_number() {
    let mut sim = simulation(200, Vec2d::new(0, -10), vec![particle(50, 50, 10, 5, 5), particle(70, 50, 12, -5, 5)]);
    for _ in 0..20 {
        sim.update(1);
        assert_eq!(sim.particles().len(), 2);
        assert_eq!(sim.particles()[0].radius, 10);
        assert_eq!(sim.particles()[1].radius, 12);
        assert_eq!(sim.particles()[0].color, BLACK);
    }
    assert_eq!(sim.area().size, Vec2d::new(200, 200));
}

#[test]
fn update_saturates_at_the_end_of_the_range() {
    let mut sim = simulation(1_000_000, Vec2d::new(0, 0), vec![particle(i64::MAX - 5, 500_000, 10, 10, 0)]);
    sim.update(1);
    assert_eq!(sim.particles()[0].pos.x, i64::MAX);
}

#[test]
fn two_particles_head_on_invert_their_velocities() {
    // one tick is a tenth of a second: 50 a second is 5 a tick
    let mut sim = simulation(
        200,
        Vec2d::new(0, 0),
        vec![particle(60, 100, 10, 5, 0), particle(140, 100, 10, -5, 0)],
    );
    for _ in 0..6 {
        sim.update(1);
    }
    // 20 apart: they touch, which is not yet a collision
    assert_eq!(sim.particles()[0].pos, Vec2d::new(90, 100));
    assert_eq!(sim.particles()[1].pos, Vec2d::new(110, 100));
    assert_eq!(sim.particles()[0].vel, Vec2d::new(5, 0));
    assert_eq!(sim.particles()[1].vel, Vec2d::new(-5, 0));
    sim.update(1);
    assert_eq!(sim.particles()[0].vel, Vec2d::new(-5, 0));
    assert_eq!(sim.particles()[1].vel, Vec2d::new(5, 0));
}

#[test]
fn particle_bounces_off_the_left_wall() {
    // lengths in tenths, a tick of a tenth of a second: pos (5, 100), radius 10 and a box of 200
    // become 50, 1000, 100 and 2000; 50 a second stays 50 a tick, and dt = 0.5 s is 5 ticks
    let mut sim = simulation(2000, Vec2d::new(0, 0), vec![particle(50, 1000, 100, -50, 0)]);
    sim.update(5);
    assert_eq!(sim.particles()[0].pos, Vec2d::new(-200, 1000));
    assert_eq!(sim.particles()[0].vel, Vec2d::new(50, 0));
    // moving away from the wall, it is not turned again
    sim.update(1);
    assert_eq!(sim.particles()[0].vel, Vec2d::new(50, 0));
}

#[test]
fn box_only_simulation_ignores_other_particles() {
    let mut sim = Simulation::from_particles(
        Vec2d::new(200, 200),
        Vec2d::new(0, 0),
        vec![particle(100, 100, 10, 1, 0), particle(105, 100, 10, -1, 0)],
        BoxCollider::new(BasicCollisionProcessor),
    )
    .unwrap();
    sim.update(1);
    assert_eq!(sim.particles()[0].vel, Vec2d::new(1, 0));
    assert_eq!(sim.particles()[1].vel, Vec2d::new(-1, 0));
}

#[test]
fn grid_of_two_by_two() {
    let area = Area { size: Vec2d::new(40, 40) };
    assert_eq!(
        candidate_positions(&area, 10),
        vec![Vec2d::new(10, 10), Vec2d::new(10, 30), Vec2d::new(30, 10), Vec2d::new(30, 30)]
    );
}

#[test]
fn grid_leaves_the_rest_of_the_area_free() {
    // 3 columns and 2 rows of side 20; the last 10 along each axis hold no cell
    let area = Area { size: Vec2d::new(70, 50) };
    assert_eq!(
        candidate_positions(&area, 10),
        vec![
            Vec2d::new(10, 10),
            Vec2d::new(10, 30),
            Vec2d::new(30, 10),
            Vec2d::new(30, 30),
            Vec2d::new(50, 10),
            Vec2d::new(50, 30),
        ]
    );
}

#[test]
fn grid_is_empty_when_no_cell_fits() {
    let area = Area { size: Vec2d::new(19, 400) };
    assert_eq!(candidate_positions(&area, 10), vec![]);
}

#[test]
fn spawn_fills_the_grid() {
    let sim = Simulation::new(
        Vec2d::new(40, 40),
        Vec2d::new(0, 0),
        vec![template(10, 0, 4)],
        east(4),
        sweeper(),
    )
    .unwrap();
    assert_eq!(sim.particles().len(), 4);
    assert!(!sim.truncated());
    let mut places: Vec<(i64, i64)> = sim.particles().iter().map(|p| (p.pos.x, p.pos.y)).collect();
    places.sort();
    assert_eq!(places, vec![(10, 10), (10, 30), (30, 10), (30, 30)]);
    for (i, p) in sim.particles().iter().enumerate() {
        assert_eq!(p.radius, 10);
        assert_eq!(p.vel, Vec2d::new(0, 0));
        assert_eq!(p.acc, Vec2d::new(0, 0));
        for (j, q) in sim.particles().iter().enumerate() {
            if i != j {
                assert!(!p.collides_with(q));
            }
        }
    }
}

#[test]
fn spawn_drops_what_does_not_fit() {
    let sim = Simulation::new(
        Vec2d::new(40, 40),
        Vec2d::new(0, 0),
        vec![template(10, 0, 5)],
        east(5),
        sweeper(),
    )
    .unwrap();
    assert_eq!(sim.particles().len(), 4);
    assert!(sim.truncated());
    let mut places: Vec<(i64, i64)> = sim.particles().iter().map(|p| (p.pos.x, p.pos.y)).collect();
    places.sort();
    assert_eq!(places, vec![(10, 10), (10, 30), (30, 10), (30, 30)]);
}

#[test]
fn spawn_stops_when_the_headings_run_out() {
    let sim = Simulation::new(
        Vec2d::new(400, 400),
        Vec2d::new(0, 0),
        vec![template(10, 5, 10)],
        east(3),
        sweeper(),
    )
    .unwrap();
    assert_eq!(sim.particles().len(), 3);
    assert!(sim.truncated());
}

#[test]
fn spawn_draws_distinct_cells_every_time() {
    for _ in 0..50 {
        let sim = Simulation::new(
            Vec2d::new(100, 100),
            Vec2d::new(0, 0),
            vec![template(10, 0, 7), template(5, 0, 6)],
            east(13),
            sweeper(),
        )
        .unwrap();
        let particles = sim.particles();
        assert_eq!(particles.len(), 13);
        for i in 0..particles.len() {
            assert_eq!(particles[i].radius, if i < 7 { 10 } else { 5 });
            assert!(particles[i].pos.x - 10 >= 0 && particles[i].pos.x + 10 <= 100);
            assert!(particles[i].pos.y - 10 >= 0 && particles[i].pos.y + 10 <= 100);
            assert_eq!((particles[i].pos.x - 10) % 20, 0);
            assert_eq!((particles[i].pos.y - 10) % 20, 0);
            for j in 0..i {
                assert_ne!(particles[i].pos, particles[j].pos);
                assert!(!particles[i].collides_with(&particles[j]));
            }
        }
    }
}

#[test]
fn spawn_draws_as_many_places_as_are_needed() {
    let positions = candidate_positions(&Area { size: Vec2d::new(100, 100) }, 10);
    assert_eq!(positions.len(), 25);
    let particles = spawn(&vec![template(10, 0, 3), template(10, 0, 2)], &positions, &east(9));
    assert_eq!(particles.len(), 5);
    for i in 0..particles.len() {
        assert!(positions.contains(&particles[i].pos));
        for j in 0..i {
            assert_ne!(particles[i].pos, particles[j].pos);
        }
    }
    let particles = spawn(&vec![template(10, 0, 30)], &positions, &east(40));
    assert_eq!(particles.len(), 25);
    let particles = spawn(&vec![], &positions, &east(40));
    assert_eq!(particles.len(), 0);
}

#[test]
fn spawn_uses_the_largest_radius_for_the_grid() {
    let sim = Simulation::new(
        Vec2d::new(100, 100),
        Vec2d::new(0, 0),
        vec![template(5, 0, 1), template(25, 0, 1), template(10, 0, 20)],
        east(22),
        sweeper(),
    )
    .unwrap();
    // cells of side 50: a grid of 2 by 2
    assert_eq!(sim.particles().len(), 4);
    assert!(sim.truncated());
    assert_eq!(sim.particles()[0].radius, 5);
    assert_eq!(sim.particles()[1].radius, 25);
    assert_eq!(sim.particles()[2].radius, 10);
    assert_eq!(sim.particles()[3].radius, 10);
    for p in sim.particles() {
        assert!(p.pos.x == 25 || p.pos.x == 75);
        assert!(p.pos.y == 25 || p.pos.y == 75);
    }
}

#[test]
fn spawn_without_templates_uses_cells_of_side_two() {
    let sim = Simulation::new(Vec2d::new(10, 10), Vec2d::new(0, -1), vec![], east(3), sweeper()).unwrap();
    assert_eq!(sim.particles().len(), 0);
    assert!(!sim.truncated());
    assert_eq!(sim.area().size, Vec2d::new(10, 10));
}

#[test]
fn populate_follows_the_template_order() {
    let positions = vec![Vec2d::new(10, 10), Vec2d::new(10, 30), Vec2d::new(30, 10), Vec2d::new(30, 30)];
    let templates = vec![
        ParticleTemplate { radius: 10, vel: 50, color: BLACK, count: 2 },
        ParticleTemplate { radius: 4, vel: 8, color: WHITE, count: 0 },
        ParticleTemplate { radius: 7, vel: -20, color: WHITE, count: 1 },
    ];
    let headings = vec![
        Vec2d::new(HEADING_UNIT, 0),
        Vec2d::new(0, -HEADING_UNIT),
        Vec2d::new(HEADING_UNIT / 2, HEADING_UNIT / 4),
        Vec2d::new(1, 1),
    ];
    let particles = populate(&templates, &positions, &vec![3, 0, 2, 1], &headings);
    assert_eq!(
        particles,
        vec![
            Particle {
                pos: Vec2d::new(30, 30),
                radius: 10,
                color: BLACK,
                vel: Vec2d::new(50, 0),
                acc: Vec2d::new(0, 0)
            },
            Particle {
                pos: Vec2d::new(10, 10),
                radius: 10,
                color: BLACK,
                vel: Vec2d::new(0, -50),
                acc: Vec2d::new(0, 0)
            },
            Particle {
                pos: Vec2d::new(30, 10),
                radius: 7,
                color: WHITE,
                vel: Vec2d::new(-10, -5),
                acc: Vec2d::new(0, 0)
            },
        ]
    );
}

#[test]
fn populate_stops_when_the_picks_run_out() {
    let positions = vec![Vec2d::new(10, 10), Vec2d::new(10, 30)];
    let templates = vec![template(10, 0, 1), template(5, 0, 3)];
    let particles = populate(&templates, &positions, &vec![1, 0], &east(4));
    assert_eq!(particles.len(), 2);
    assert_eq!(particles[0].pos, Vec2d::new(10, 30));
    assert_eq!(particles[0].radius, 10);
    assert_eq!(particles[1].pos, Vec2d::new(10, 10));
    assert_eq!(particles[1].radius, 5);
    assert_eq!(populate(&templates, &positions, &vec![], &east(4)), vec![]);
    assert_eq!(populate(&templates, &positions, &vec![1, 0], &vec![]), vec![]);
}

#[test]
fn launch_velocity_rounds_toward_zero() {
    let positions = vec![Vec2d::new(10, 10)];
    let particles = populate(
        &vec![template(10, 3, 1)],
        &positions,
        &vec![0],
        &vec![Vec2d::new(HEADING_UNIT / 2, -HEADING_UNIT / 2)],
    );
    assert_eq!(particles[0].vel, Vec2d::new(1, -1));
}

#[test]
fn count_requested_adds_the_counts() {
    assert_eq!(count_requested(&vec![]), 0);
    assert_eq!(count_requested(&vec![template(1, 0, 3), template(1, 0, 0), template(1, 0, 4)]), 7);
    assert_eq!(
        count_requested(&vec![template(1, 0, usize::MAX), template(1, 0, usize::MAX)]),
        2 * (usize::MAX as u128)
    );
}

#[test]
fn new_rejects_an_empty_area() {
    let made = Simulation::new(Vec2d::new(0, 40), Vec2d::new(0, 0), vec![template(10, 0, 1)], east(1), sweeper());
    assert_eq!(made.err(), Some(ConfigError::EmptyArea));
    let made = Simulation::new(Vec2d::new(40, -1), Vec2d::new(0, 0), vec![template(0, 0, 1)], east(1), sweeper());
    assert_eq!(made.err(), Some(ConfigError::EmptyArea));
}

#[test]
fn new_rejects_a_radius_out_of_range() {
    let made = Simulation::new(
        Vec2d::new(40, 40),
        Vec2d::new(0, 0),
        vec![template(10, 0, 1), template(0, 0, 1)],
        east(2),
        sweeper(),
    );
    assert_eq!(made.err(), Some(ConfigError::RadiusOutOfRange));
    let made = Simulation::new(Vec2d::new(40, 40), Vec2d::new(0, 0), vec![template(-3, 0, 1)], east(1), sweeper());
    assert_eq!(made.err(), Some(ConfigError::RadiusOutOfRange));
    let made = Simulation::new(
        Vec2d::new(40, 40),
        Vec2d::new(0, 0),
        vec![template(MAX_RADIUS + 1, 0, 1)],
        east(1),
        sweeper(),
    );
    assert_eq!(made.err(), Some(ConfigError::RadiusOutOfRange));
    let made = Simulation::new(
        Vec2d::new(40, 40),
        Vec2d::new(0, 0),
        vec![template(MAX_RADIUS, 0, 1)],
        east(1),
        sweeper(),
    );
    assert!(made.is_ok());
}

#[test]
fn new_rejects_a_grid_too_large_to_count() {
    let made = Simulation::new(
        Vec2d::new(i64::MAX, i64::MAX),
        Vec2d::new(0, 0),
        vec![template(1, 0, 1)],
        east(1),
        sweeper(),
    );
    assert_eq!(made.err(), Some(ConfigError::GridTooLarge));
}

#[test]
fn from_particles_checks_area_and_radii() {
    let made = Simulation::from_particles(Vec2d::new(0, 1), Vec2d::new(0, 0), vec![], sweeper());
    assert_eq!(made.err(), Some(ConfigError::EmptyArea));
    let made =
        Simulation::from_particles(Vec2d::new(10, 10), Vec2d::new(0, 0), vec![particle(1, 1, 0, 0, 0)], sweeper());
    assert_eq!(made.err(), Some(ConfigError::RadiusOutOfRange));
    let made = Simulation::from_particles(
        Vec2d::new(10, 10),
        Vec2d::new(0, 0),
        vec![particle(1, 1, 1, 0, 0), particle(1, 1, MAX_RADIUS + 1, 0, 0)],
        sweeper(),
    );
    assert_eq!(made.err(), Some(ConfigError::RadiusOutOfRange));
    let sim = Simulation::from_particles(
        Vec2d::new(10, 10),
        Vec2d::new(0, 0),
        vec![particle(1, 1, 1, 0, 0)],
        sweeper(),
    )
    .unwrap();
    assert_eq!(sim.particles(), &vec![particle(1, 1, 1, 0, 0)]);
    assert!(!sim.truncated());
}

#[test]
fn spawn_sends_each_particle_along_its_heading() {
    let headings = vec![
        Vec2d::new(HEADING_UNIT, 0),
        Vec2d::new(0, HEADING_UNIT),
        Vec2d::new(-HEADING_UNIT, 0),
        Vec2d::new(0, -HEADING_UNIT),
    ];
    let sim = Simulation::new(
        Vec2d::new(400, 400),
        Vec2d::new(0, -9),
        vec![template(10, 50, 2), template(10, 7, 2)],
        headings,
        sweeper(),
    )
    .unwrap();
    assert!(!sim.truncated());
    let velocities: Vec<Vec2d> = sim.particles().iter().map(|p| p.vel).collect();
    assert_eq!(velocities, vec![Vec2d::new(50, 0), Vec2d::new(0, 50), Vec2d::new(-7, 0), Vec2d::new(0, -7)]);
}

#[test]
fn unit_headings_are_one_unit_long() {
    assert!(is_unit_heading(&Vec2d::new(HEADING_UNIT, 0)));
    assert!(is_unit_heading(&Vec2d::new(0, -HEADING_UNIT)));
    assert!(is_unit_heading(&Vec2d::new(HEADING_UNIT + 1, 0)));
    assert!(is_unit_heading(&Vec2d::new(0, HEADING_UNIT - 1)));
    // sin and cos of 30 degrees, rounded
    assert!(is_unit_heading(&Vec2d::new(536_870_912, 929_887_697)));
    assert!(!is_unit_heading(&Vec2d::new(0, 0)));
    assert!(!is_unit_heading(&Vec2d::new(HEADING_UNIT, HEADING_UNIT)));
    assert!(!is_unit_heading(&Vec2d::new(HEADING_UNIT + 2, 0)));
    assert!(!is_unit_heading(&Vec2d::new(0, HEADING_UNIT - 2)));
    assert!(!is_unit_heading(&Vec2d::new(i64::MIN, i64::MAX)));
}

#[test]
fn new_rejects_a_heading_off_unit() {
    let made = Simulation::new(
        Vec2d::new(40, 40),
        Vec2d::new(0, 0),
        vec![template(10, 5, 1)],
        vec![Vec2d::new(HEADING_UNIT, 0), Vec2d::new(0, 0)],
        sweeper(),
    );
    assert_eq!(made.err(), Some(ConfigError::HeadingOffUnit));
    // the area and the radii are looked at first
    let made = Simulation::new(
        Vec2d::new(40, 40),
        Vec2d::new(0, 0),
        vec![template(0, 5, 1)],
        vec![Vec2d::new(3, 4)],
        sweeper(),
    );
    assert_eq!(made.err(), Some(ConfigError::RadiusOutOfRange));
}

#[test]
fn spawned_particles_have_the_speed_of_their_template() {
    // sin and cos of 30 degrees, rounded
    let sim = Simulation::new(
        Vec2d::new(400, 400),
        Vec2d::new(0, 0),
        vec![template(10, 1000, 1)],
        vec![Vec2d::new(536_870_912, 929_887_697)],
        sweeper(),
    )
    .unwrap();
    assert_eq!(sim.particles()[0].vel, Vec2d::new(500, 866));
    assert_eq!(sim.particles()[0].vel.len(), 999);
}

#[test]
fn head_on_particles_collide_at_the_first_tick_that_brings_them_close() {
    for dt in 1..4 {
        // per tick each particle moves by less than two radii, so the two cannot pass through each other
        let mut sim = simulation(
            2000,
            Vec2d::new(0, 0),
            vec![particle(300, 1000, 100, 50, 0), particle(1700, 1000, 100, -50, 0)],
        );
        let mut ticks = 0;
        loop {
            sim.update(dt);
            ticks += 1;
            let gap = 1400 - 2 * ticks * 50 * dt;
            assert_eq!(sim.particles()[1].pos.x - sim.particles()[0].pos.x, gap);
            if gap >= 200 {
                assert_eq!(sim.particles()[0].vel, Vec2d::new(50, 0));
                assert_eq!(sim.particles()[1].vel, Vec2d::new(-50, 0));
            } else {
                assert_eq!(sim.particles()[0].vel, Vec2d::new(-50, 0));
                assert_eq!(sim.particles()[1].vel, Vec2d::new(50, 0));
                break;
            }
        }
        assert_eq!(ticks, 1200 / (100 * dt) + 1);
    }
}
