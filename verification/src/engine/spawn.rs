//! Where particles start: a grid of cells wide enough for the largest
//! particle, and the particles that a list of templates puts on it.
use vstd::prelude::*;
use rand::seq::IteratorRandom;
use vstd::arithmetic::div_mod::{
    lemma_div_pos_is_pos, lemma_fundamental_div_mod, lemma_fundamental_div_mod_converse, lemma_mod_bound,
    lemma_multiply_divide_lt,
};
use crate::engine::particle::{Area, Color, MAX_RADIUS, Particle, ParticleTemplate};
use crate::engine::scalar::{lemma_quotient_square, narrow, quotient, saturate, square};
use crate::engine::vec2d::Vec2d;

verus! {

/// How many cells of side `2 * max_radius` fit along a side of length `side`.
pub open spec fn cells_along(side: int, max_radius: int) -> int {
    side / (2 * max_radius)
}

/// The centre of cell `i` along a side: the cells lie one after the other
/// from the origin, each `2 * max_radius` long.
pub open spec fn centre_along(max_radius: int, i: int) -> int {
    i * (2 * max_radius) + max_radius
}

/// The number of cells of the grid.
pub open spec fn cell_count(area: Area, max_radius: int) -> int {
    cells_along(area.size.x as int, max_radius) * cells_along(area.size.y as int, max_radius)
}

/// The candidate positions, column by column: the centres of the cells of
/// the grid that `area` is cut into.
pub open spec fn grid(area: Area, max_radius: int) -> Seq<Vec2d> {
    let rows = cells_along(area.size.y as int, max_radius);
    Seq::new(
        cell_count(area, max_radius) as nat,
        |k: int|
            Vec2d {
                x: centre_along(max_radius, k / rows) as i64,
                y: centre_along(max_radius, k % rows) as i64,
            },
    )
}

/// A particle at the centre of a cell lies inside the side, and the centres
/// of two cells are a whole number of diameters apart.
pub proof fn lemma_cells_along(side: int, max_radius: int, i: int, j: int)
    requires
        0 < max_radius,
        0 <= i <= j < cells_along(side, max_radius),
    ensures
        max_radius <= centre_along(max_radius, i),
        centre_along(max_radius, j) + max_radius <= side,
        centre_along(max_radius, j) - centre_along(max_radius, i) == (j - i) * (2 * max_radius),
        i < j ==> centre_along(max_radius, j) - centre_along(max_radius, i) >= 2 * max_radius,
{
    let d = 2 * max_radius;
    let n = cells_along(side, max_radius);
    lemma_fundamental_div_mod(side, d);
    lemma_mod_bound(side, d);
    assert(d * n <= side);
    assert(0 <= i * d && (j + 1) * d <= d * n && (i < j ==> (j - i) * d >= d) && (j + 1) * d == j * d + d
        && (j - i) * d == j * d - i * d) by (nonlinear_arith)
        requires
            0 <= i <= j < n,
            d > 0,
    ;
}

/// A candidate position keeps the largest radius from every wall.
pub proof fn lemma_grid_inside(area: Area, max_radius: int, k: int)
    requires
        area.wf(),
        0 < max_radius,
        0 <= k < cell_count(area, max_radius),
    ensures
        max_radius <= grid(area, max_radius)[k].x <= area.size.x - max_radius,
        max_radius <= grid(area, max_radius)[k].y <= area.size.y - max_radius,
{
    let columns = cells_along(area.size.x as int, max_radius);
    let rows = cells_along(area.size.y as int, max_radius);
    lemma_div_pos_is_pos(area.size.x as int, 2 * max_radius);
    lemma_div_pos_is_pos(area.size.y as int, 2 * max_radius);
    assert(rows > 0 && columns > 0) by (nonlinear_arith)
        requires
            columns >= 0,
            rows >= 0,
            columns * rows > 0,
    ;
    lemma_div_pos_is_pos(k, rows);
    lemma_mod_bound(k, rows);
    assert(rows * columns == columns * rows) by (nonlinear_arith);
    lemma_multiply_divide_lt(k, rows, columns);
    lemma_cells_along(area.size.x as int, max_radius, k / rows, k / rows);
    lemma_cells_along(area.size.y as int, max_radius, k % rows, k % rows);
}

/// A candidate position is the centre of a cell of the grid: the cell in
/// column `i` and row `j` has its centre at `max_radius + 2 * max_radius * i`
/// and `max_radius + 2 * max_radius * j`.
pub proof fn lemma_grid_cell(area: Area, max_radius: int, k: int) -> (cell: (int, int))
    requires
        area.wf(),
        0 < max_radius,
        0 <= k < cell_count(area, max_radius),
    ensures
        0 <= cell.0 < cells_along(area.size.x as int, max_radius),
        0 <= cell.1 < cells_along(area.size.y as int, max_radius),
        k == cell.0 * cells_along(area.size.y as int, max_radius) + cell.1,
        grid(area, max_radius)[k].x == max_radius + 2 * max_radius * cell.0,
        grid(area, max_radius)[k].y == max_radius + 2 * max_radius * cell.1,
{
    let columns = cells_along(area.size.x as int, max_radius);
    let rows = cells_along(area.size.y as int, max_radius);
    lemma_grid_inside(area, max_radius, k);
    lemma_div_pos_is_pos(area.size.x as int, 2 * max_radius);
    lemma_div_pos_is_pos(area.size.y as int, 2 * max_radius);
    assert(rows > 0 && columns > 0) by (nonlinear_arith)
        requires
            columns >= 0,
            rows >= 0,
            columns * rows > 0,
    ;
    lemma_div_pos_is_pos(k, rows);
    lemma_mod_bound(k, rows);
    assert(rows * columns == columns * rows) by (nonlinear_arith);
    lemma_multiply_divide_lt(k, rows, columns);
    lemma_fundamental_div_mod(k, rows);
    let (i, j) = (k / rows, k % rows);
    lemma_cells_along(area.size.x as int, max_radius, i, i);
    lemma_cells_along(area.size.y as int, max_radius, j, j);
    assert(i * (2 * max_radius) == 2 * max_radius * i && j * (2 * max_radius) == 2 * max_radius * j
        && rows * i == i * rows) by (nonlinear_arith);
    (i, j)
}

/// Two different candidate positions are at least one diameter of the
/// largest particle apart, along one axis or the other.
pub proof fn lemma_grid_apart(area: Area, max_radius: int, a: int, b: int)
    requires
        area.wf(),
        0 < max_radius,
        0 <= a < cell_count(area, max_radius),
        0 <= b < cell_count(area, max_radius),
        a != b,
    ensures
        ({
            let dx = grid(area, max_radius)[a].x - grid(area, max_radius)[b].x;
            let dy = grid(area, max_radius)[a].y - grid(area, max_radius)[b].y;
            dx >= 2 * max_radius || -dx >= 2 * max_radius || dy >= 2 * max_radius || -dy >= 2 * max_radius
        }),
{
    let columns = cells_along(area.size.x as int, max_radius);
    let rows = cells_along(area.size.y as int, max_radius);
    lemma_grid_inside(area, max_radius, a);
    lemma_grid_inside(area, max_radius, b);
    lemma_div_pos_is_pos(area.size.x as int, 2 * max_radius);
    lemma_div_pos_is_pos(area.size.y as int, 2 * max_radius);
    assert(rows > 0 && columns > 0) by (nonlinear_arith)
        requires
            columns >= 0,
            rows >= 0,
            columns * rows > 0,
    ;
    assert(rows * columns == columns * rows) by (nonlinear_arith);
    lemma_div_pos_is_pos(a, rows);
    lemma_div_pos_is_pos(b, rows);
    lemma_mod_bound(a, rows);
    lemma_mod_bound(b, rows);
    lemma_multiply_divide_lt(a, rows, columns);
    lemma_multiply_divide_lt(b, rows, columns);
    lemma_fundamental_div_mod(a, rows);
    lemma_fundamental_div_mod(b, rows);
    let (ia, ja) = (a / rows, a % rows);
    let (ib, jb) = (b / rows, b % rows);
    if ia < ib {
        lemma_cells_along(area.size.x as int, max_radius, ia, ib);
    } else if ib < ia {
        lemma_cells_along(area.size.x as int, max_radius, ib, ia);
    } else if ja < jb {
        lemma_cells_along(area.size.y as int, max_radius, ja, jb);
    } else {
        assert(jb < ja);
        lemma_cells_along(area.size.y as int, max_radius, jb, ja);
    }
}

/// Lists the candidate positions of the grid.
pub fn candidate_positions(area: &Area, max_radius: i64) -> (positions: Vec<Vec2d>)
    requires
        area.wf(),
        0 < max_radius <= MAX_RADIUS,
        cell_count(*area, max_radius as int) <= usize::MAX,
    ensures
        positions@ == grid(*area, max_radius as int),
{
    let width: i64 = area.size.x / (2 * max_radius);
    let height: i64 = area.size.y / (2 * max_radius);
    let mut positions: Vec<Vec2d> = Vec::new();
    let mut i: i64 = 0;
    while i < width
        invariant
            area.wf(),
            0 < max_radius <= MAX_RADIUS,
            width == cells_along(area.size.x as int, max_radius as int),
            height == cells_along(area.size.y as int, max_radius as int),
            width * height <= usize::MAX,
            0 <= i <= width,
            0 <= height,
            positions@.len() == i * height,
            forall|k: int| 0 <= k < positions@.len() ==> #[trigger] positions@[k] == grid(*area, max_radius as int)[k],
        decreases width - i,
    {
        let mut j: i64 = 0;
        while j < height
            invariant
                area.wf(),
                0 < max_radius <= MAX_RADIUS,
                width == cells_along(area.size.x as int, max_radius as int),
                height == cells_along(area.size.y as int, max_radius as int),
                width * height <= usize::MAX,
                0 <= i < width,
                0 <= j <= height,
                positions@.len() == i * height + j,
                forall|k: int|
                    0 <= k < positions@.len() ==> #[trigger] positions@[k] == grid(*area, max_radius as int)[k],
            decreases height - j,
        {
            proof {
                lemma_cells_along(area.size.x as int, max_radius as int, i as int, i as int);
                lemma_cells_along(area.size.y as int, max_radius as int, j as int, j as int);
                lemma_fundamental_div_mod_converse(i * height + j, height as int, i as int, j as int);
                assert(i * height + j < width * height) by (nonlinear_arith)
                    requires
                        0 <= i < width,
                        0 <= j < height,
                ;
                assert(i * (2 * max_radius) >= 0 && j * (2 * max_radius) >= 0) by (nonlinear_arith)
                    requires
                        i >= 0,
                        j >= 0,
                        max_radius > 0,
                ;
            }
            positions.push(
                Vec2d::new(i * (2 * max_radius) + max_radius, j * (2 * max_radius) + max_radius),
            );
            j += 1;
        }
        assert((i + 1) * height == i * height + height) by (nonlinear_arith);
        i += 1;
    }
    assert(positions@ =~= grid(*area, max_radius as int));
    positions
}

/// The length of a heading that stands for a full unit: a heading is a
/// direction, its components given as parts of `HEADING_UNIT`.
pub const HEADING_UNIT: i64 = 0x4000_0000;

/// The velocity of a particle that starts with `speed` along `heading`.
pub open spec fn launch_velocity(speed: int, heading: Vec2d) -> Vec2d {
    Vec2d {
        x: saturate(quotient(speed * heading.x, HEADING_UNIT as int)) as i64,
        y: saturate(quotient(speed * heading.y, HEADING_UNIT as int)) as i64,
    }
}

/// `heading` is as long as one `HEADING_UNIT`, as nearly as a point of the
/// lattice can be: within one step of it.
pub open spec fn unit_heading(heading: Vec2d) -> bool {
    (HEADING_UNIT - 1) * (HEADING_UNIT - 1) <= heading.norm_squared() <= (HEADING_UNIT + 1) * (HEADING_UNIT + 1)
}

/// Checks whether `heading` is as long as one `HEADING_UNIT`.
pub fn is_unit_heading(heading: &Vec2d) -> (unit: bool)
    ensures
        unit == unit_heading(*heading),
{
    let length: u128 = square(heading.x) + square(heading.y);
    let unit: u128 = 0x4000_0000;
    assert(unit == HEADING_UNIT);
    let least: u128 = (unit - 1) * (unit - 1);
    let most: u128 = (unit + 1) * (unit + 1);
    least <= length && length <= most
}

/// A particle leaves along a unit heading with the speed of its template, up
/// to the rounding of the heading and of the two components: the velocity is
/// no longer than the speed by more than one part in `HEADING_UNIT`, and no
/// shorter by more than that and one step along each axis.
pub proof fn lemma_launch_speed(speed: int, heading: Vec2d)
    requires
        unit_heading(heading),
        -0x4000_0000_0000_0000 <= speed <= 0x4000_0000_0000_0000,
    ensures
        ({
            let v = launch_velocity(speed, heading);
            let unit = HEADING_UNIT as int;
            &&& unit * unit * v.norm_squared() <= speed * speed * ((unit + 1) * (unit + 1))
            &&& speed * speed * ((unit - 1) * (unit - 1)) < unit * unit * ((vstd::math::abs(v.x as int) + 1)
                * (vstd::math::abs(v.x as int) + 1) + (vstd::math::abs(v.y as int) + 1) * (vstd::math::abs(
                v.y as int,
            ) + 1))
        }),
{
    let unit = HEADING_UNIT as int;
    let hx = heading.x as int;
    let hy = heading.y as int;
    let nx = speed * hx;
    let ny = speed * hy;
    let qx = quotient(nx, unit);
    let qy = quotient(ny, unit);
    let ax = vstd::math::abs(qx);
    let ay = vstd::math::abs(qy);
    let length = heading.norm_squared();
    lemma_quotient_square(nx, unit);
    lemma_quotient_square(ny, unit);
    assert(hx * hx >= 0 && hy * hy >= 0) by (nonlinear_arith);
    assert(-(unit + 1) <= hx <= unit + 1) by (nonlinear_arith)
        requires
            hx * hx <= (unit + 1) * (unit + 1),
            unit > 0,
    ;
    assert(-(unit + 1) <= hy <= unit + 1) by (nonlinear_arith)
        requires
            hy * hy <= (unit + 1) * (unit + 1),
            unit > 0,
    ;
    assert(nx * nx == speed * speed * (hx * hx) && ny * ny == speed * speed * (hy * hy)) by (nonlinear_arith)
        requires
            nx == speed * hx,
            ny == speed * hy,
    ;
    assert(nx * nx + ny * ny == speed * speed * length) by (nonlinear_arith)
        requires
            nx * nx == speed * speed * (hx * hx),
            ny * ny == speed * speed * (hy * hy),
            length == hx * hx + hy * hy,
    ;
    assert(speed * speed * ((unit - 1) * (unit - 1)) <= speed * speed * length && speed * speed * length <= speed
        * speed * ((unit + 1) * (unit + 1))) by (nonlinear_arith)
        requires
            (unit - 1) * (unit - 1) <= length <= (unit + 1) * (unit + 1),
    ;
    assert((unit * qx) * (unit * qx) == unit * unit * (qx * qx) && (unit * qy) * (unit * qy) == unit * unit
        * (qy * qy)) by (nonlinear_arith);
    assert(unit * unit * (qx * qx + qy * qy) == unit * unit * (qx * qx) + unit * unit * (qy * qy))
        by (nonlinear_arith);
    assert((unit * (ax + 1)) * (unit * (ax + 1)) == unit * unit * ((ax + 1) * (ax + 1)) && (unit * (ay + 1))
        * (unit * (ay + 1)) == unit * unit * ((ay + 1) * (ay + 1))) by (nonlinear_arith);
    assert(unit * unit * ((ax + 1) * (ax + 1) + (ay + 1) * (ay + 1)) == unit * unit * ((ax + 1) * (ax + 1))
        + unit * unit * ((ay + 1) * (ay + 1))) by (nonlinear_arith);
    // neither component leaves the range, so none is cut
    assert(-0x4000_0000_0000_0000 * (unit + 1) <= nx <= 0x4000_0000_0000_0000 * (unit + 1)) by (nonlinear_arith)
        requires
            nx == speed * hx,
            -0x4000_0000_0000_0000 <= speed <= 0x4000_0000_0000_0000,
            -(unit + 1) <= hx <= unit + 1,
            unit > 0,
    ;
    assert(-0x4000_0000_0000_0000 * (unit + 1) <= ny <= 0x4000_0000_0000_0000 * (unit + 1)) by (nonlinear_arith)
        requires
            ny == speed * hy,
            -0x4000_0000_0000_0000 <= speed <= 0x4000_0000_0000_0000,
            -(unit + 1) <= hy <= unit + 1,
            unit > 0,
    ;
    assert(-(unit * 0x7fff_ffff_ffff_ffff) <= unit * qx <= unit * 0x7fff_ffff_ffff_ffff) by (nonlinear_arith)
        requires
            (unit * qx) * (unit * qx) <= nx * nx,
            -0x4000_0000_0000_0000 * (unit + 1) <= nx <= 0x4000_0000_0000_0000 * (unit + 1),
            unit == 0x4000_0000,
    ;
    assert(-(unit * 0x7fff_ffff_ffff_ffff) <= unit * qy <= unit * 0x7fff_ffff_ffff_ffff) by (nonlinear_arith)
        requires
            (unit * qy) * (unit * qy) <= ny * ny,
            -0x4000_0000_0000_0000 * (unit + 1) <= ny <= 0x4000_0000_0000_0000 * (unit + 1),
            unit == 0x4000_0000,
    ;
    assert(-0x7fff_ffff_ffff_ffff <= qx <= 0x7fff_ffff_ffff_ffff && -0x7fff_ffff_ffff_ffff <= qy
        <= 0x7fff_ffff_ffff_ffff) by (nonlinear_arith)
        requires
            -(unit * 0x7fff_ffff_ffff_ffff) <= unit * qx <= unit * 0x7fff_ffff_ffff_ffff,
            -(unit * 0x7fff_ffff_ffff_ffff) <= unit * qy <= unit * 0x7fff_ffff_ffff_ffff,
            unit > 0,
    ;
    let v = launch_velocity(speed, heading);
    assert(v.x == qx && v.y == qy);
}

/// The particle that `template` asks for, put at `pos` and sent along `heading`.
pub open spec fn spawned(template: ParticleTemplate, pos: Vec2d, heading: Vec2d) -> Particle {
    Particle {
        pos,
        radius: template.radius,
        color: template.color,
        vel: launch_velocity(template.vel as int, heading),
        acc: Vec2d { x: 0, y: 0 },
    }
}

/// The particles of one template, the first of them taking the draw `start`.
pub open spec fn batch(
    template: ParticleTemplate,
    positions: Seq<Vec2d>,
    picks: Seq<usize>,
    headings: Seq<Vec2d>,
    start: int,
) -> Seq<Particle> {
    Seq::new(
        template.count as nat,
        |c: int| spawned(template, positions[picks[start + c] as int], headings[start + c]),
    )
}

/// Every particle that the templates ask for, in template order, as if the
/// draws never ran out: particle `k` stands on the position that pick `k`
/// names and moves along heading `k`.
pub open spec fn laid_out(
    templates: Seq<ParticleTemplate>,
    positions: Seq<Vec2d>,
    picks: Seq<usize>,
    headings: Seq<Vec2d>,
) -> Seq<Particle>
    decreases templates.len(),
{
    if templates.len() == 0 {
        Seq::empty()
    } else {
        let before = laid_out(templates.drop_last(), positions, picks, headings);
        before + batch(templates.last(), positions, picks, headings, before.len() as int)
    }
}

/// How many particles the templates ask for.
pub open spec fn requested(templates: Seq<ParticleTemplate>) -> int
    decreases templates.len(),
{
    if templates.len() == 0 {
        0
    } else {
        requested(templates.drop_last()) + templates.last().count
    }
}

/// The smallest of three numbers.
pub open spec fn least(a: int, b: int, c: int) -> int {
    if a <= b && a <= c {
        a
    } else if b <= c {
        b
    } else {
        c
    }
}

/// The particles that are spawned: those that the templates ask for, as far
/// as picks and headings reach. The rest is dropped.
pub open spec fn population(
    templates: Seq<ParticleTemplate>,
    positions: Seq<Vec2d>,
    picks: Seq<usize>,
    headings: Seq<Vec2d>,
) -> Seq<Particle> {
    laid_out(templates, positions, picks, headings).take(
        least(requested(templates), picks.len() as int, headings.len() as int),
    )
}

/// As many particles are laid out as are asked for.
pub proof fn lemma_laid_out_len(
    templates: Seq<ParticleTemplate>,
    positions: Seq<Vec2d>,
    picks: Seq<usize>,
    headings: Seq<Vec2d>,
)
    ensures
        laid_out(templates, positions, picks, headings).len() == requested(templates),
    decreases templates.len(),
{
    if templates.len() > 0 {
        lemma_laid_out_len(templates.drop_last(), positions, picks, headings);
    }
}

/// Particle `k` of the layout belongs to one of the templates: it is what
/// that template asks for, on the position that pick `k` names and along
/// heading `k`.
pub proof fn lemma_laid_out_member(
    templates: Seq<ParticleTemplate>,
    positions: Seq<Vec2d>,
    picks: Seq<usize>,
    headings: Seq<Vec2d>,
    k: int,
) -> (t: int)
    requires
        0 <= k < requested(templates),
    ensures
        0 <= t < templates.len(),
        laid_out(templates, positions, picks, headings)[k] == spawned(
            templates[t],
            positions[picks[k] as int],
            headings[k],
        ),
    decreases templates.len(),
{
    let front = templates.drop_last();
    lemma_laid_out_len(front, positions, picks, headings);
    if k < requested(front) {
        lemma_laid_out_member(front, positions, picks, headings, k)
    } else {
        templates.len() - 1
    }
}

/// The layout of the first templates is the start of the layout of all.
proof fn lemma_laid_out_prefix(
    templates: Seq<ParticleTemplate>,
    t: int,
    positions: Seq<Vec2d>,
    picks: Seq<usize>,
    headings: Seq<Vec2d>,
)
    requires
        0 <= t <= templates.len(),
    ensures
        laid_out(templates.take(t), positions, picks, headings).is_prefix_of(
            laid_out(templates, positions, picks, headings),
        ),
    decreases templates.len(),
{
    if t == templates.len() {
        assert(templates.take(t) =~= templates);
    } else {
        let front = templates.drop_last();
        lemma_laid_out_prefix(front, t, positions, picks, headings);
        assert(front.take(t) =~= templates.take(t));
    }
}

/// Computes the velocity of a particle that starts with `speed` along `heading`.
fn launch(speed: i64, heading: Vec2d) -> (vel: Vec2d)
    ensures
        vel == launch_velocity(speed as int, heading),
{
    assert(-0x4000_0000_0000_0000_0000_0000_0000_0000 <= speed * heading.x
        <= 0x4000_0000_0000_0000_0000_0000_0000_0000 && -0x4000_0000_0000_0000_0000_0000_0000_0000
        <= speed * heading.y <= 0x4000_0000_0000_0000_0000_0000_0000_0000) by (nonlinear_arith)
        requires
            -0x8000_0000_0000_0000 <= speed <= 0x8000_0000_0000_0000,
            -0x8000_0000_0000_0000 <= heading.x <= 0x8000_0000_0000_0000,
            -0x8000_0000_0000_0000 <= heading.y <= 0x8000_0000_0000_0000,
    ;
    let unit: i128 = HEADING_UNIT as i128;
    Vec2d {
        x: narrow((speed as i128 * heading.x as i128) / unit),
        y: narrow((speed as i128 * heading.y as i128) / unit),
    }
}

/// Assigns positions to particles in template order: particle `k` gets the
/// position that `picks[k]` names and the heading `headings[k]`. When the
/// picks or the headings run out, the remaining particles are not spawned.
pub fn populate(
    templates: &Vec<ParticleTemplate>,
    positions: &Vec<Vec2d>,
    picks: &Vec<usize>,
    headings: &Vec<Vec2d>,
) -> (particles: Vec<Particle>)
    requires
        forall|k: int| 0 <= k < picks@.len() ==> #[trigger] picks@[k] < positions@.len(),
    ensures
        particles@ == population(templates@, positions@, picks@, headings@),
{
    let limit: usize = if picks.len() < headings.len() { picks.len() } else { headings.len() };
    let mut particles: Vec<Particle> = Vec::new();
    let n: usize = templates.len();
    let mut t: usize = 0;
    proof {
        lemma_laid_out_len(templates@, positions@, picks@, headings@);
        assert(templates@.take(0) =~= Seq::<ParticleTemplate>::empty());
        assert(particles@ =~= laid_out(templates@, positions@, picks@, headings@).take(0));
    }
    while t < n && particles.len() < limit
        invariant
            t <= n,
            n == templates@.len(),
            limit == if picks@.len() < headings@.len() { picks@.len() } else { headings@.len() },
            forall|k: int| 0 <= k < picks@.len() ==> #[trigger] picks@[k] < positions@.len(),
            particles@.len() <= limit,
            particles@.len() < limit ==> particles@ == laid_out(templates@.take(t as int), positions@, picks@, headings@),
            particles@.len() == limit ==> particles@ == population(templates@, positions@, picks@, headings@),
        decreases n - t,
    {
        let template: ParticleTemplate = templates[t];
        let ghost before = particles@;
        let ghost whole = laid_out(templates@.take(t + 1), positions@, picks@, headings@);
        proof {
            assert(templates@.take(t + 1).drop_last() =~= templates@.take(t as int));
            assert(whole == before + batch(template, positions@, picks@, headings@, before.len() as int));
            lemma_laid_out_prefix(templates@, t + 1, positions@, picks@, headings@);
            lemma_laid_out_len(templates@, positions@, picks@, headings@);
        }
        let mut c: usize = 0;
        while c < template.count && particles.len() < limit
            invariant
                c <= template.count,
                limit == if picks@.len() < headings@.len() { picks@.len() } else { headings@.len() },
                forall|k: int| 0 <= k < picks@.len() ==> #[trigger] picks@[k] < positions@.len(),
                particles@.len() <= limit,
                particles@.len() == before.len() + c,
                whole == before + batch(template, positions@, picks@, headings@, before.len() as int),
                particles@ == whole.take(before.len() + c),
            decreases template.count - c,
        {
            let k: usize = particles.len();
            let pos: Vec2d = positions[picks[k]];
            particles.push(
                Particle {
                    pos,
                    radius: template.radius,
                    color: template.color,
                    vel: launch(template.vel, headings[k]),
                    acc: Vec2d::new(0, 0),
                },
            );
            c += 1;
            assert(particles@ =~= whole.take(before.len() + c));
        }
        proof {
            let all = laid_out(templates@, positions@, picks@, headings@);
            if particles@.len() == limit {
                assert(particles@ =~= all.take(limit as int));
                assert(limit <= whole.len() <= all.len());
            } else {
                assert(particles@ =~= whole);
            }
        }
        t += 1;
    }
    proof {
        lemma_laid_out_len(templates@, positions@, picks@, headings@);
        if particles@.len() < limit {
            assert(templates@.take(n as int) =~= templates@);
            let all = laid_out(templates@, positions@, picks@, headings@);
            assert(all.take(all.len() as int) =~= all);
        }
    }
    particles
}

/// `picks` names places of a sequence of length `n`, none of them twice.
pub open spec fn distinct_within(picks: Seq<usize>, n: int) -> bool {
    &&& forall|k: int| 0 <= k < picks.len() ==> #[trigger] picks[k] < n
    &&& forall|a: int, b: int| 0 <= a < b < picks.len() ==> #[trigger] picks[a] != #[trigger] picks[b]
}

/// Draws `amount` places of `positions` at random without replacement, by
/// `IteratorRandom::choose_multiple` of the rand crate on the range of
/// places, with the generator of the calling thread. Believed of it: it
/// hands back `amount` places, each below the length of `positions` and none
/// of them twice. Which places, and in what order, is left open.
#[verifier::external_body]
fn choose_places(positions: &Vec<Vec2d>, amount: usize) -> (picks: Vec<usize>)
    requires
        amount <= positions@.len(),
    ensures
        picks@.len() == amount,
        distinct_within(picks@, positions@.len() as int),
{
    (0..positions.len()).choose_multiple(&mut rand::thread_rng(), amount)
}

/// Computes how many particles the templates ask for.
pub fn count_requested(templates: &Vec<ParticleTemplate>) -> (total: u128)
    ensures
        total == requested(templates@),
{
    let mut total: u128 = 0;
    let n: usize = templates.len();
    let mut t: usize = 0;
    assert(templates@.take(0) =~= Seq::<ParticleTemplate>::empty());
    while t < n
        invariant
            t <= n,
            n == templates@.len(),
            total == requested(templates@.take(t as int)),
            total <= t * 0xffff_ffff_ffff_ffff,
        decreases n - t,
    {
        assert(templates@.take(t + 1).drop_last() =~= templates@.take(t as int));
        let count: usize = templates[t].count;
        assert(t * 0xffff_ffff_ffff_ffff + 0xffff_ffff_ffff_ffff == (t + 1) * 0xffff_ffff_ffff_ffff
            && (t + 1) * 0xffff_ffff_ffff_ffff <= 0xffff_ffff_ffff_ffff * 0xffff_ffff_ffff_ffff)
            by (nonlinear_arith)
            requires
                0 <= t < 0xffff_ffff_ffff_ffff,
        ;
        total = total + count as u128;
        t += 1;
    }
    assert(templates@.take(n as int) =~= templates@);
    total
}

/// Chooses distinct candidate positions at random and spawns on them what
/// the templates ask for, as far as candidates and headings reach.
pub fn spawn(templates: &Vec<ParticleTemplate>, positions: &Vec<Vec2d>, headings: &Vec<Vec2d>) -> (particles: Vec<
    Particle,
>)
    ensures
        particles@.len() == least(requested(templates@), positions@.len() as int, headings@.len() as int),
        exists|picks: Seq<usize>| #[trigger]
            spawn_outcome(templates@, positions@, picks, headings@, particles@),
{
    let room: usize = if positions.len() < headings.len() { positions.len() } else { headings.len() };
    let wanted: u128 = count_requested(templates);
    let amount: usize = if wanted < room as u128 { wanted as usize } else { room };
    let picks: Vec<usize> = choose_places(positions, amount);
    let particles: Vec<Particle> = populate(templates, positions, &picks, headings);
    proof {
        lemma_laid_out_len(templates@, positions@, picks@, headings@);
        assert(spawn_outcome(templates@, positions@, picks@, headings@, particles@));
    }
    particles
}

/// `particles` is what the templates spawn when the places `picks` are drawn:
/// as many distinct places as particles are asked for and as candidates and
/// headings allow.
pub open spec fn spawn_outcome(
    templates: Seq<ParticleTemplate>,
    positions: Seq<Vec2d>,
    picks: Seq<usize>,
    headings: Seq<Vec2d>,
    particles: Seq<Particle>,
) -> bool {
    &&& picks.len() == least(requested(templates), positions.len() as int, headings.len() as int)
    &&& distinct_within(picks, positions.len() as int)
    &&& particles == population(templates, positions, picks, headings)
}

} // verus!
