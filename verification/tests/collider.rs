use particle_simulation::engine::collider::sweep_collider::{events, Event};
use particle_simulation::engine::collider::{BoxCollision, Collision};
use particle_simulation::engine::{
    Area, BasicCollisionProcessor, BoxCollider, CollisionDetector, CollisionProcessor, Color, Particle,
    SweepCollider, Vec2d,
};

const BLACK: Color = Color { red: 0, green: 0, blue: 0, alpha: 255 };

fn particle(x: i64, y: i64, radius: i64, vx: i64, vy: i64) -> Particle {
    Particle { pos: Vec2d::new(x, y), radius, color: BLACK, vel: Vec2d::new(vx, vy), acc: Vec2d::new(0, 0) }
}

fn sweeper() -> SweepCollider<BasicCollisionProcessor, BasicCollisionProcessor> {
    SweepCollider::new(BasicCollisionProcessor, BoxCollider::new(BasicCollisionProcessor))
}

fn big_area() -> Area {
    Area { size: Vec2d::new(1_000_000, 1_000_000) }
}

#[test]
fn wall_reverses_a_velocity_that_points_into_it() {
    let mut p = particle(5, 100, 10, -50, 7);
    BasicCollisionProcessor.process_collision(Collision::Box(BoxCollision::Left(&mut p)));
    assert_eq!(p.vel, Vec2d::new(50, 7));

    let mut p = particle(195, 100, 10, 50, 7);
    BasicCollisionProcessor.process_collision(Collision::Box(BoxCollision::Right(&mut p)));
    assert_eq!(p.vel, Vec2d::new(-50, 7));

    let mut p = particle(100, 5, 10, 7, -50);
    BasicCollisionProcessor.process_collision(Collision::Box(BoxCollision::Bottom(&mut p)));
    assert_eq!(p.vel, Vec2d::new(7, 50));

    let mut p = particle(100, 195, 10, 7, 50);
    BasicCollisionProcessor.process_collision(Collision::Box(BoxCollision::Top(&mut p)));
    assert_eq!(p.vel, Vec2d::new(7, -50));
}

#[test]
fn wall_leaves_a_velocity_that_points_away_from_it() {
    let mut p = particle(5, 100, 10, 50, -7);
    BasicCollisionProcessor.process_collision(Collision::Box(BoxCollision::Left(&mut p)));
    assert_eq!(p.vel, Vec2d::new(50, -7));

    let mut p = particle(195, 100, 10, -50, 7);
    BasicCollisionProcessor.process_collision(Collision::Box(BoxCollision::Right(&mut p)));
    assert_eq!(p.vel, Vec2d::new(-50, 7));

    let mut p = particle(100, 5, 10, 7, 50);
    BasicCollisionProcessor.process_collision(Collision::Box(BoxCollision::Bottom(&mut p)));
    assert_eq!(p.vel, Vec2d::new(7, 50));

    let mut p = particle(100, 195, 10, 7, -50);
    BasicCollisionProcessor.process_collision(Collision::Box(BoxCollision::Top(&mut p)));
    assert_eq!(p.vel, Vec2d::new(7, -50));

    let mut p = particle(100, 195, 10, 7, 0);
    BasicCollisionProcessor.process_collision(Collision::Box(BoxCollision::Top(&mut p)));
    assert_eq!(p.vel, Vec2d::new(7, 0));
}

#[test]
fn wall_contact_twice_is_wall_contact_once() {
    let mut p = particle(5, 100, 10, -50, 0);
    BasicCollisionProcessor.process_collision(Collision::Box(BoxCollision::Left(&mut p)));
    BasicCollisionProcessor.process_collision(Collision::Box(BoxCollision::Left(&mut p)));
    assert_eq!(p.vel, Vec2d::new(50, 0));
}

#[test]
fn wall_reversal_saturates() {
    let mut p = particle(5, 100, 10, i64::MIN, 0);
    BasicCollisionProcessor.process_collision(Collision::Box(BoxCollision::Left(&mut p)));
    assert_eq!(p.vel, Vec2d::new(i64::MAX, 0));
}

#[test]
fn wall_contact_keeps_the_body() {
    let mut p = particle(5, 100, 10, -50, 3);
    BasicCollisionProcessor.process_collision(Collision::Box(BoxCollision::Left(&mut p)));
    assert_eq!(p.pos, Vec2d::new(5, 100));
    assert_eq!(p.radius, 10);
    assert_eq!(p.color, BLACK);
}

#[test]
fn equal_particles_exchange_velocities() {
    let mut p1 = particle(90, 100, 10, 50, 0);
    let mut p2 = particle(105, 100, 10, -50, 0);
    BasicCollisionProcessor.process_collision(Collision::Particle(&mut p1, &mut p2));
    assert_eq!(p1.vel, Vec2d::new(-50, 0));
    assert_eq!(p2.vel, Vec2d::new(50, 0));
}

#[test]
fn equal_particles_exchange_any_velocities() {
    let mut p1 = particle(90, 100, 7, 13, -4);
    let mut p2 = particle(95, 100, 7, -2, 9);
    BasicCollisionProcessor.process_collision(Collision::Particle(&mut p1, &mut p2));
    assert_eq!(p1.vel, Vec2d::new(-2, 9));
    assert_eq!(p2.vel, Vec2d::new(13, -4));
}

#[test]
fn unequal_particles_follow_the_elastic_formula() {
    // m1 = 1, m2 = 4
    let mut p1 = particle(0, 0, 1, 10, 5);
    let mut p2 = particle(2, 0, 2, -5, 0);
    BasicCollisionProcessor.process_collision(Collision::Particle(&mut p1, &mut p2));
    // v1' = (10 * (1 - 4) + 2 * 4 * -5) / 5 = -14, (5 * -3 + 0) / 5 = -3
    assert_eq!(p1.vel, Vec2d::new(-14, -3));
    // v2' = (-5 * (4 - 1) + 2 * 1 * 10) / 5 = 1, (0 + 2 * 1 * 5) / 5 = 2
    assert_eq!(p2.vel, Vec2d::new(1, 2));
}

#[test]
fn collision_conserves_momentum() {
    let mut p1 = particle(0, 0, 3, 1000, -700);
    let mut p2 = particle(4, 0, 5, -300, 200);
    let (m1, m2) = (9, 25);
    let before = (m1 * p1.vel.x + m2 * p2.vel.x, m1 * p1.vel.y + m2 * p2.vel.y);
    BasicCollisionProcessor.process_collision(Collision::Particle(&mut p1, &mut p2));
    let after = (m1 * p1.vel.x + m2 * p2.vel.x, m1 * p1.vel.y + m2 * p2.vel.y);
    assert!((after.0 - before.0).abs() < m1 + m2);
    assert!((after.1 - before.1).abs() < m1 + m2);
    // (1000 * -16 + 50 * -300) / 34 = -911.76.., (-300 * 16 + 18 * 1000) / 34 = 388.23..
    assert_eq!(p1.vel.x, -911);
    assert_eq!(p2.vel.x, 388);
}

#[test]
fn elastic_quotient_rounds_toward_zero() {
    let mut p1 = particle(0, 0, 1, 1, -1);
    let mut p2 = particle(2, 0, 2, 0, 0);
    BasicCollisionProcessor.process_collision(Collision::Particle(&mut p1, &mut p2));
    // v1' = -3 / 5, 3 / 5; v2' = 2 / 5, -2 / 5
    assert_eq!(p1.vel, Vec2d::new(0, 0));
    assert_eq!(p2.vel, Vec2d::new(0, 0));
}

#[test]
fn elastic_velocity_saturates() {
    // a light particle thrown back by a heavy one would leave with three times the speed
    let mut p1 = particle(0, 0, 1, i64::MIN, 0);
    let mut p2 = particle(2, 0, 0x8000_0000, i64::MAX, 0);
    BasicCollisionProcessor.process_collision(Collision::Particle(&mut p1, &mut p2));
    assert_eq!(p1.vel.x, i64::MAX);
}

#[test]
fn overlap_is_strict() {
    let a = particle(0, 0, 10, 0, 0);
    assert!(a.collides_with(&particle(19, 0, 10, 0, 0)));
    assert!(!a.collides_with(&particle(20, 0, 10, 0, 0)));
    assert!(a.collides_with(&particle(12, 15, 10, 0, 0)));
    assert!(!a.collides_with(&particle(12, 16, 10, 0, 0)));
    assert!(!a.collides_with(&particle(i64::MAX, i64::MIN, 10, 0, 0)));
}

#[test]
fn box_collider_bounces_off_each_wall() {
    let area = Area { size: Vec2d::new(200, 200) };
    let mut particles = vec![
        particle(5, 100, 10, -50, 1),
        particle(195, 100, 10, 50, 1),
        particle(100, 5, 10, 1, -50),
        particle(100, 195, 10, 1, 50),
        particle(100, 100, 10, -3, 4),
        particle(5, 195, 10, -2, 2),
    ];
    BoxCollider::new(BasicCollisionProcessor).process_collisions(&area, &mut particles);
    assert_eq!(particles[0].vel, Vec2d::new(50, 1));
    assert_eq!(particles[1].vel, Vec2d::new(-50, 1));
    assert_eq!(particles[2].vel, Vec2d::new(1, 50));
    assert_eq!(particles[3].vel, Vec2d::new(1, -50));
    assert_eq!(particles[4].vel, Vec2d::new(-3, 4));
    assert_eq!(particles[5].vel, Vec2d::new(2, -2));
}

#[test]
fn box_collider_counts_touching_as_contact() {
    let area = Area { size: Vec2d::new(200, 200) };
    let mut particles = vec![particle(10, 190, 10, -1, 1), particle(11, 189, 10, -1, 1)];
    BoxCollider::new(BasicCollisionProcessor).process_collisions(&area, &mut particles);
    assert_eq!(particles[0].vel, Vec2d::new(1, -1));
    assert_eq!(particles[1].vel, Vec2d::new(-1, 1));
}

#[test]
fn box_collider_reports_one_wall_per_axis() {
    // too wide for the box: it touches both the left and the right wall, and only the left is seen
    let area = Area { size: Vec2d::new(20, 200) };
    let mut particles = vec![particle(10, 100, 15, 5, 0)];
    BoxCollider::new(BasicCollisionProcessor).process_collisions(&area, &mut particles);
    assert_eq!(particles[0].vel, Vec2d::new(5, 0));
}

#[test]
fn events_come_in_pairs() {
    let particles = vec![particle(100, 0, 10, 0, 0), particle(-5, 0, 20, 0, 0)];
    assert_eq!(
        events(&particles),
        vec![Event::Begin(90, 0), Event::End(110, 0), Event::Begin(-25, 1), Event::End(15, 1)]
    );
}

#[test]
fn sweep_finds_an_overlapping_pair() {
    let mut particles = vec![particle(100, 100, 10, 50, 0), particle(115, 100, 10, -50, 0)];
    sweeper().process_collisions(&big_area(), &mut particles);
    assert_eq!(particles[0].vel, Vec2d::new(-50, 0));
    assert_eq!(particles[1].vel, Vec2d::new(50, 0));
}

#[test]
fn sweep_sorts_the_events() {
    // listed from right to left
    let mut particles = vec![
        particle(500, 100, 10, 1, 0),
        particle(300, 100, 10, 2, 0),
        particle(315, 100, 10, 3, 0),
        particle(100, 100, 10, 4, 0),
    ];
    sweeper().process_collisions(&big_area(), &mut particles);
    assert_eq!(particles[0].vel, Vec2d::new(1, 0));
    assert_eq!(particles[1].vel, Vec2d::new(3, 0));
    assert_eq!(particles[2].vel, Vec2d::new(2, 0));
    assert_eq!(particles[3].vel, Vec2d::new(4, 0));
}

#[test]
fn sweep_ignores_pairs_that_only_share_the_x_range() {
    let mut particles = vec![particle(100, 100, 10, 1, 0), particle(105, 500, 10, 2, 0)];
    sweeper().process_collisions(&big_area(), &mut particles);
    assert_eq!(particles[0].vel, Vec2d::new(1, 0));
    assert_eq!(particles[1].vel, Vec2d::new(2, 0));
}

#[test]
fn sweep_ignores_particles_that_only_touch() {
    let mut particles = vec![particle(100, 100, 10, 1, 0), particle(120, 100, 10, 2, 0)];
    sweeper().process_collisions(&big_area(), &mut particles);
    assert_eq!(particles[0].vel, Vec2d::new(1, 0));
    assert_eq!(particles[1].vel, Vec2d::new(2, 0));
}

#[test]
fn sweep_handles_the_walls_first() {
    let area = Area { size: Vec2d::new(200, 200) };
    // the left particle touches the wall and is turned, then it meets the right one
    let mut particles = vec![particle(5, 100, 10, -50, 0), particle(20, 100, 10, 7, 0)];
    sweeper().process_collisions(&area, &mut particles);
    assert_eq!(particles[0].vel, Vec2d::new(7, 0));
    assert_eq!(particles[1].vel, Vec2d::new(50, 0));
}

#[test]
fn sweep_resolves_collisions_one_after_the_other() {
    // the middle particle overlaps both of the others, which do not overlap each other
    let mut particles = vec![
        particle(100, 100, 10, 1, 0),
        particle(115, 100, 10, 2, 0),
        particle(130, 100, 10, 3, 0),
    ];
    let ordered = vec![
        Event::Begin(90, 0),
        Event::Begin(105, 1),
        Event::End(110, 0),
        Event::Begin(120, 2),
        Event::End(125, 1),
        Event::End(140, 2),
    ];
    sweeper().sweep(&ordered, &mut particles);
    // 0 and 1 exchange, then 1 (now with the velocity of 0) and 2 exchange
    assert_eq!(particles[0].vel, Vec2d::new(2, 0));
    assert_eq!(particles[1].vel, Vec2d::new(3, 0));
    assert_eq!(particles[2].vel, Vec2d::new(1, 0));

    let mut particles = vec![
        particle(100, 100, 10, 1, 0),
        particle(115, 100, 10, 2, 0),
        particle(130, 100, 10, 3, 0),
    ];
    sweeper().process_collisions(&big_area(), &mut particles);
    assert_eq!(particles[0].vel, Vec2d::new(2, 0));
    assert_eq!(particles[1].vel, Vec2d::new(3, 0));
    assert_eq!(particles[2].vel, Vec2d::new(1, 0));
}

#[test]
fn sweep_tests_a_begun_particle_against_every_open_one() {
    // all three overlap one another; 2 begins last and meets 0 and 1, in either order
    let mut particles = vec![
        particle(100, 100, 10, 1, 0),
        particle(105, 100, 10, 2, 0),
        particle(110, 100, 10, 3, 0),
    ];
    let ordered = vec![
        Event::Begin(90, 0),
        Event::Begin(95, 1),
        Event::Begin(100, 2),
        Event::End(110, 0),
        Event::End(115, 1),
        Event::End(120, 2),
    ];
    sweeper().sweep(&ordered, &mut particles);
    let velocities = (particles[0].vel.x, particles[1].vel.x, particles[2].vel.x);
    // (1, 0) leaves 0 with 2 and 1 with 1; then (2, 0), (2, 1) or (2, 1), (2, 0)
    assert!(velocities == (3, 2, 1) || velocities == (1, 3, 2));
    assert_eq!((particles[0].vel.y, particles[1].vel.y, particles[2].vel.y), (0, 0, 0));
}

#[test]
fn sweep_forgets_a_particle_at_its_end() {
    let mut particles = vec![particle(100, 100, 10, 1, 0), particle(105, 100, 10, 2, 0)];
    // the end of 0 comes before the beginning of 1, so the pair is never looked at
    let ordered = vec![Event::Begin(90, 0), Event::End(110, 0), Event::Begin(95, 1), Event::End(115, 1)];
    sweeper().sweep(&ordered, &mut particles);
    assert_eq!(particles[0].vel, Vec2d::new(1, 0));
    assert_eq!(particles[1].vel, Vec2d::new(2, 0));
}

#[test]
fn sweep_never_pairs_a_particle_with_itself() {
    let mut particles = vec![particle(100, 100, 10, 1, 0)];
    let ordered = vec![Event::Begin(90, 0), Event::Begin(90, 0), Event::End(110, 0)];
    sweeper().sweep(&ordered, &mut particles);
    assert_eq!(particles[0].vel, Vec2d::new(1, 0));
}

#[test]
fn sweep_candidates_cover_the_pairs_of_a_quadratic_check() {
    // a fixed pseudo-random layout; equal radii, so that each collision exchanges velocities and
    // the multiset of velocities tells how many particles took part
    let mut seed: u64 = 0x2545_f491_4f6c_dd1d;
    let mut particles = Vec::new();
    for k in 0..40 {
        seed ^= seed << 13;
        seed ^= seed >> 7;
        seed ^= seed << 17;
        let x = (seed % 400) as i64 + 100;
        let y = ((seed >> 20) % 400) as i64 + 100;
        particles.push(particle(x, y, 12, k + 1, 0));
    }
    let mut touched = vec![false; particles.len()];
    for i in 0..particles.len() {
        for j in 0..particles.len() {
            if i != j && particles[i].collides_with(&particles[j]) {
                touched[i] = true;
            }
        }
    }
    let before = particles.clone();
    sweeper().process_collisions(&big_area(), &mut particles);
    for i in 0..particles.len() {
        if !touched[i] {
            assert_eq!(particles[i], before[i]);
        }
    }
    let mut moved = 0;
    for i in 0..particles.len() {
        if particles[i].vel != before[i].vel {
            assert!(touched[i]);
            moved += 1;
        }
    }
    assert!(moved > 0);
}

/// A processor that stops whatever collides.
struct Sticky;

impl CollisionProcessor for Sticky {
    fn process_collision(&self, collision: Collision) {
        match collision {
            Collision::Box(BoxCollision::Top(p))
            | Collision::Box(BoxCollision::Right(p))
            | Collision::Box(BoxCollision::Bottom(p))
            | Collision::Box(BoxCollision::Left(p)) => {
                p.vel = Vec2d::new(0, 0);
            }
            Collision::Particle(p1, p2) => {
                p1.vel = Vec2d::new(0, 0);
                p2.vel = Vec2d::new(0, 0);
            }
        }
    }
}

#[test]
fn processors_can_be_replaced() {
    let area = Area { size: Vec2d::new(200, 200) };
    let mut particles = vec![
        particle(5, 100, 10, -50, 0),
        particle(100, 100, 10, 7, 0),
        particle(110, 100, 10, -7, 0),
        particle(150, 50, 10, 1, 1),
    ];
    SweepCollider::new(Sticky, BoxCollider::new(BasicCollisionProcessor)).process_collisions(&area, &mut particles);
    assert_eq!(particles[0].vel, Vec2d::new(50, 0));
    assert_eq!(particles[1].vel, Vec2d::new(0, 0));
    assert_eq!(particles[2].vel, Vec2d::new(0, 0));
    assert_eq!(particles[3].vel, Vec2d::new(1, 1));

    let mut particles = vec![particle(5, 100, 10, -50, 3), particle(100, 100, 10, 7, 0)];
    BoxCollider::new(Sticky).process_collisions(&area, &mut particles);
    assert_eq!(particles[0].vel, Vec2d::new(0, 0));
    assert_eq!(particles[1].vel, Vec2d::new(7, 0));
}

#[test]
fn second_collision_gives_the_velocities_back() {
    let mut p1 = particle(0, 0, 3, 1000, -700);
    let mut p2 = particle(4, 0, 5, -300, 200);
    BasicCollisionProcessor.process_collision(Collision::Particle(&mut p1, &mut p2));
    BasicCollisionProcessor.process_collision(Collision::Particle(&mut p1, &mut p2));
    assert!((p1.vel.x - 1000).abs() < 4 && (p1.vel.y + 700).abs() < 4);
    assert!((p2.vel.x + 300).abs() < 4 && (p2.vel.y - 200).abs() < 4);

    let mut p1 = particle(0, 0, 7, 13, -4);
    let mut p2 = particle(4, 0, 7, -2, 9);
    BasicCollisionProcessor.process_collision(Collision::Particle(&mut p1, &mut p2));
    BasicCollisionProcessor.process_collision(Collision::Particle(&mut p1, &mut p2));
    assert_eq!(p1.vel, Vec2d::new(13, -4));
    assert_eq!(p2.vel, Vec2d::new(-2, 9));
}

#[test]
fn a_pass_conserves_the_momentum_of_equal_particles() {
    let mut seed: u64 = 0x9e37_79b9_7f4a_7c15;
    let mut particles = Vec::new();
    for _ in 0..60 {
        seed ^= seed << 13;
        seed ^= seed >> 7;
        seed ^= seed << 17;
        let x = (seed % 300) as i64 + 100;
        let y = ((seed >> 20) % 300) as i64 + 100;
        let vx = ((seed >> 40) % 200) as i64 - 100;
        let vy = ((seed >> 50) % 200) as i64 - 100;
        particles.push(particle(x, y, 12, vx, vy));
    }
    let before: (i64, i64) = particles.iter().fold((0, 0), |sum, p| (sum.0 + p.vel.x, sum.1 + p.vel.y));
    let old = particles.clone();
    sweeper().process_collisions(&big_area(), &mut particles);
    let after: (i64, i64) = particles.iter().fold((0, 0), |sum, p| (sum.0 + p.vel.x, sum.1 + p.vel.y));
    assert_eq!(before, after);
    assert_ne!(old, particles);
}

#[test]
fn a_pass_conserves_momentum_up_to_rounding() {
    let mut seed: u64 = 0x2545_f491_4f6c_dd1d;
    let mut particles = Vec::new();
    for k in 0..40 {
        seed ^= seed << 13;
        seed ^= seed >> 7;
        seed ^= seed << 17;
        let x = (seed % 300) as i64 + 100;
        let y = ((seed >> 20) % 300) as i64 + 100;
        let vx = ((seed >> 40) % 2000) as i64 - 1000;
        particles.push(particle(x, y, 5 + k % 7, vx, -vx));
    }
    let momentum = |ps: &Vec<Particle>| ps.iter().fold(0, |sum, p| sum + p.radius * p.radius * p.vel.x);
    let before = momentum(&particles);
    sweeper().process_collisions(&big_area(), &mut particles);
    let after = momentum(&particles);
    // fewer than 40 * 39 / 2 pairs, each off by less than two masses of 121
    assert!((after - before).abs() < 780 * 242);
}
