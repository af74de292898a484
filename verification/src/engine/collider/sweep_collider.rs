//! Sweep and prune along the x-axis, followed by an exact test of each
//! candidate pair.
use std::collections::HashSet;
use vstd::prelude::*;
use vstd::std_specs::hash::*;
use crate::engine::collider::box_collider::{BoxCollider, all_clear, box_pass, lemma_box_pass_free};
use crate::engine::collider::{Collision, CollisionDetector, CollisionProcessor};
use crate::engine::particle::{Area, Particle, all_wf, same_bodies};

verus! {

/// Event is either the beginning or the end of a particle's extent along the
/// x-axis; it holds the coordinate and the particle's index.
#[derive(Clone, Copy, Debug, PartialEq, Eq, Structural)]
pub enum Event {
    Begin(i128, usize),
    End(i128, usize),
}

impl Event {
    /// The coordinate at which the sweep line meets this event.
    pub open spec fn coordinate(self) -> int {
        match self {
            Event::Begin(a, _) => a as int,
            Event::End(a, _) => a as int,
        }
    }

    /// The index of the particle that this event belongs to.
    pub open spec fn particle(self) -> usize {
        match self {
            Event::Begin(_, i) => i,
            Event::End(_, i) => i,
        }
    }

    /// The coordinate at which the sweep line meets this event.
    pub fn at(&self) -> (a: i128)
        ensures
            a == self.coordinate(),
    {
        match self {
            Event::Begin(a, _) => *a,
            Event::End(a, _) => *a,
        }
    }
}

/// The event at which particle `i` of `ps` comes under the sweep line.
pub open spec fn begin_of(ps: Seq<Particle>, i: int) -> Event {
    Event::Begin((ps[i].pos.x - ps[i].radius) as i128, i as usize)
}

/// The event at which particle `i` of `ps` leaves the sweep line.
pub open spec fn end_of(ps: Seq<Particle>, i: int) -> Event {
    Event::End((ps[i].pos.x + ps[i].radius) as i128, i as usize)
}

/// The two events of every particle, in the order of the particles.
pub open spec fn events_of(ps: Seq<Particle>) -> Seq<Event> {
    Seq::new(2 * ps.len(), |k: int| if k % 2 == 0 { begin_of(ps, k / 2) } else { end_of(ps, k / 2) })
}

/// The coordinates of `ev` never decrease.
pub open spec fn ascending(ev: Seq<Event>) -> bool {
    forall|a: int, b: int| 0 <= a <= b < ev.len() ==> (#[trigger] ev[a]).coordinate() <= (#[trigger] ev[b]).coordinate()
}

/// `ev` is an order in which the sweep line may meet the events of `ps`:
/// the same events, by ascending coordinate. Events that share a coordinate
/// may come in any order.
pub open spec fn sweep_order(ev: Seq<Event>, ps: Seq<Particle>) -> bool {
    &&& ev.to_multiset() == events_of(ps).to_multiset()
    &&& ascending(ev)
}

/// The particles under the sweep line once the first `k` events have passed.
pub open spec fn open_after(ev: Seq<Event>, k: int) -> Set<usize>
    decreases k,
{
    if k <= 0 {
        Set::empty()
    } else {
        match ev[k - 1] {
            Event::Begin(_, i) => open_after(ev, k - 1).insert(i),
            Event::End(_, i) => open_after(ev, k - 1).remove(i),
        }
    }
}

/// `orders` tells, for each event that is a beginning, in which order the
/// particles under the sweep line are walked: each of them once. The set
/// that holds them has no order of its own, so any order may come.
pub open spec fn walks(ev: Seq<Event>, orders: Seq<Seq<usize>>) -> bool {
    &&& orders.len() == ev.len()
    &&& forall|k: int|
        0 <= k < ev.len() && ev[k] is Begin ==> (#[trigger] orders[k]).no_duplicates() && orders[k].to_set()
            == open_after(ev, k)
}

/// The pairs that a particle `i` forms with each of `order`, in that order.
pub open spec fn partners(i: usize, order: Seq<usize>) -> Seq<(usize, usize)> {
    Seq::new(order.len(), |m: int| (i, order[m]))
}

/// The candidate pairs that the first `k` events give rise to, in the order
/// in which the sweep meets them: each particle that comes under the line is
/// paired with every particle already there.
pub open spec fn candidates(ev: Seq<Event>, orders: Seq<Seq<usize>>, k: int) -> Seq<(usize, usize)>
    decreases k,
{
    if k <= 0 {
        Seq::empty()
    } else {
        match ev[k - 1] {
            Event::Begin(_, i) => candidates(ev, orders, k - 1) + partners(i, orders[k - 1]),
            Event::End(_, _) => candidates(ev, orders, k - 1),
        }
    }
}

/// `ps` after the candidate `pair` has been looked at: if it names two
/// different particles that overlap, `processor` sees them, the one with the
/// lower index first.
pub open spec fn struck<C: CollisionProcessor>(processor: C, ps: Seq<Particle>, pair: (usize, usize)) -> Seq<
    Particle,
> {
    let (i, j) = pair;
    if i != j && i < ps.len() && j < ps.len() && ps[i as int].overlaps(ps[j as int]) {
        let lo = if i < j { i as int } else { j as int };
        let hi = if i < j { j as int } else { i as int };
        let (a, b) = processor.exchanged(ps[lo], ps[hi]);
        ps.update(lo, a).update(hi, b)
    } else {
        ps
    }
}

/// `ps` after the candidate `pairs` have been looked at one after the other,
/// each seeing the velocities that the ones before it left.
pub open spec fn resolved<C: CollisionProcessor>(processor: C, ps: Seq<Particle>, pairs: Seq<(usize, usize)>) -> Seq<
    Particle,
>
    decreases pairs.len(),
{
    if pairs.len() == 0 {
        ps
    } else {
        struck(processor, resolved(processor, ps, pairs.drop_last()), pairs.last())
    }
}

/// `ps` after a sweep that meets the events in the order `ev` and walks the
/// open particles in the orders `orders`.
pub open spec fn swept<C: CollisionProcessor>(
    processor: C,
    ps: Seq<Particle>,
    ev: Seq<Event>,
    orders: Seq<Seq<usize>>,
) -> Seq<Particle> {
    resolved(processor, ps, candidates(ev, orders, ev.len() as int))
}

/// `after` is what a sweep over `ps` leaves that meets the events `ev` in
/// the order given and walks the open particles in the orders `orders`.
pub open spec fn sweep_trace<C: CollisionProcessor>(
    processor: C,
    ps: Seq<Particle>,
    ev: Seq<Event>,
    orders: Seq<Seq<usize>>,
    after: Seq<Particle>,
) -> bool {
    walks(ev, orders) && after == swept(processor, ps, ev, orders)
}

/// Every event of `ev` names a particle below `n`.
pub open spec fn events_within(ev: Seq<Event>, n: int) -> bool {
    forall|k: int| 0 <= k < ev.len() ==> (#[trigger] ev[k]).particle() < n
}

/// A pair stays struck when a further pair is looked at after it.
proof fn lemma_resolved_push<C: CollisionProcessor>(
    processor: C,
    ps: Seq<Particle>,
    pairs: Seq<(usize, usize)>,
    pair: (usize, usize),
)
    ensures
        resolved(processor, ps, pairs.push(pair)) == struck(processor, resolved(processor, ps, pairs), pair),
{
    assert(pairs.push(pair).drop_last() =~= pairs);
}

/// Lists the events of `particles`: for each particle its beginning, then its end.
pub fn events(particles: &Vec<Particle>) -> (ev: Vec<Event>)
    ensures
        ev@ == events_of(particles@),
{
    let mut ev: Vec<Event> = Vec::new();
    let n: usize = particles.len();
    let mut i: usize = 0;
    while i < n
        invariant
            i <= n,
            n == particles@.len(),
            ev@.len() == 2 * i,
            forall|k: int| 0 <= k < 2 * i ==> #[trigger] ev@[k] == events_of(particles@)[k],
        decreases n - i,
    {
        let p: Particle = particles[i];
        ev.push(Event::Begin(p.pos.x as i128 - p.radius as i128, i));
        ev.push(Event::End(p.pos.x as i128 + p.radius as i128, i));
        i += 1;
    }
    assert(ev@ =~= events_of(particles@));
    ev
}

/// Sorts the events by coordinate with `sort_unstable_by_key` of the standard
/// library. Believed of it: the vector afterwards holds the same events, each
/// as often as before, by ascending coordinate. Nothing is claimed about the
/// order of events that share a coordinate.
#[verifier::external_body]
fn sort_by_coordinate(events: &mut Vec<Event>)
    ensures
        final(events)@.to_multiset() == old(events)@.to_multiset(),
        ascending(final(events)@),
{
    events.sort_unstable_by_key(|e| e.at());
}

/// The candidates of the first `k` events depend on the first `k` orders only.
proof fn lemma_candidates_prefix(ev: Seq<Event>, orders: Seq<Seq<usize>>, more: Seq<Seq<usize>>, k: int)
    requires
        0 <= k <= orders.len() <= more.len(),
        forall|m: int| 0 <= m < orders.len() ==> orders[m] == more[m],
    ensures
        candidates(ev, orders, k) == candidates(ev, more, k),
    decreases k,
{
    if k > 0 {
        lemma_candidates_prefix(ev, orders, more, k - 1);
    }
}

/// A collider which detects collisions between pairs of particles and between particles and the box
pub struct SweepCollider<C: CollisionProcessor, B: CollisionProcessor> {
    pub box_collider: BoxCollider<B>,
    pub processor: C,
}

impl<C: CollisionProcessor, B: CollisionProcessor> SweepCollider<C, B> {
    /// Creates a new SweepCollider which uses the given processor and BoxCollector
    pub fn new(processor: C, box_collider: BoxCollider<B>) -> (collider: SweepCollider<C, B>)
        ensures
            collider.processor == processor,
            collider.box_collider == box_collider,
    {
        SweepCollider { box_collider, processor }
    }

    /// Performs the sweeping by processing `events` in the order given: a
    /// particle that begins is tested against every particle under the line,
    /// and each pair that overlaps goes to the processor at once.
    pub fn sweep(&self, events: &Vec<Event>, particles: &mut Vec<Particle>)
        requires
            all_wf(old(particles)@),
            events_within(events@, old(particles)@.len() as int),
        ensures
            exists|orders: Seq<Seq<usize>>| #[trigger]
                sweep_trace(self.processor, old(particles)@, events@, orders, final(particles)@),
            same_bodies(old(particles)@, final(particles)@),
    {
        broadcast use group_hash_axioms;

        let ghost before = particles@;
        let ghost mut orders: Seq<Seq<usize>> = Seq::empty();
        let mut open: HashSet<usize> = HashSet::new();
        let count: usize = events.len();
        let mut k: usize = 0;
        while k < count
            invariant
                k <= count,
                count == events@.len(),
                before == old(particles)@,
                events_within(events@, before.len() as int),
                open@ == open_after(events@, k as int),
                forall|j: usize| open@.contains(j) ==> j < before.len(),
                orders.len() == k,
                forall|m: int|
                    0 <= m < k && events@[m] is Begin ==> (#[trigger] orders[m]).no_duplicates()
                        && orders[m].to_set() == open_after(events@, m),
                particles@ == resolved(self.processor, before, candidates(events@, orders, k as int)),
                same_bodies(before, particles@),
                all_wf(particles@),
            decreases count - k,
        {
            let e: Event = events[k];
            assert(events@[k as int].particle() < before.len());
            let ghost seen = candidates(events@, orders, k as int);
            let ghost earlier = orders;
            match e {
                Event::Begin(_, i) => {
                    let ghost order = into_iter_hash_keys(open.iter());
                    let ghost mates = partners(i, order);
                    for j in it: open.iter()
                        invariant
                            order == it.seq().unref(),
                            order.len() == it.seq().len(),
                            order.to_set() == open@,
                            i < before.len(),
                            mates == partners(i, order),
                            forall|j: usize| open@.contains(j) ==> j < before.len(),
                            particles@ == resolved(self.processor, before, seen + mates.take(it.index() as int)),
                            same_bodies(before, particles@),
                            all_wf(particles@),
                    {
                        let j: usize = *j;
                        let ghost now = particles@;
                        proof {
                            assert(order[it.index() as int] == j);
                            assert(order.contains(j));
                            assert(open@.contains(j));
                            lemma_resolved_push(
                                self.processor,
                                before,
                                seen + mates.take(it.index() as int),
                                (i, j),
                            );
                            assert((seen + mates.take(it.index() as int)).push((i, j)) =~= seen + mates.take(
                                it.index() + 1,
                            ));
                            assert(now[i as int].wf() && now[j as int].wf());
                        }
                        if i != j {
                            let p1: Particle = particles[i];
                            let p2: Particle = particles[j];
                            // check whether p1 and p2 collide
                            if p1.collides_with(&p2) {
                                let lo: usize = if i < j { i } else { j };
                                let hi: usize = if i < j { j } else { i };
                                let mut a: Particle = particles[lo];
                                let mut b: Particle = particles[hi];
                                // process the collision
                                self.processor.process_collision(Collision::Particle(&mut a, &mut b));
                                particles[lo] = a;
                                particles[hi] = b;
                                assert(particles@ =~= now.update(lo as int, a).update(hi as int, b));
                                assert forall|x: int| 0 <= x < before.len() implies (#[trigger] before[x]).same_body(
                                    particles@[x],
                                ) by {
                                    assert(before[x].same_body(now[x]));
                                }
                                assert forall|x: int| 0 <= x < particles@.len() implies (#[trigger] particles@[x]).wf() by {
                                    assert(now[x].wf());
                                }
                            }
                        }
                    }
                    proof {
                        assert(mates.take(order.len() as int) =~= mates);
                        orders = orders.push(order);
                    }
                    open.insert(i);
                },
                Event::End(_, i) => {
                    proof {
                        orders = orders.push(Seq::empty());
                    }
                    open.remove(&i);
                },
            }
            proof {
                lemma_candidates_prefix(events@, earlier, orders, k as int);
            }
            k += 1;
        }
        assert(sweep_trace(self.processor, before, events@, orders, particles@));
    }
}

/// `after` is what a sweep over `ps` leaves: the events `ev` are an order in
/// which the sweep line may meet the particles, and `orders` are orders in
/// which it may walk the open ones.
pub open spec fn sweep_outcome<C: CollisionProcessor>(
    processor: C,
    ps: Seq<Particle>,
    ev: Seq<Event>,
    orders: Seq<Seq<usize>>,
    after: Seq<Particle>,
) -> bool {
    sweep_order(ev, ps) && sweep_trace(processor, ps, ev, orders, after)
}

impl<C: CollisionProcessor, B: CollisionProcessor> CollisionDetector for SweepCollider<C, B> {
    /// First the contacts with the walls, then a sweep over the result in
    /// some order of its events by ascending coordinate.
    open spec fn resolves(&self, area: Area, before: Seq<Particle>, after: Seq<Particle>) -> bool {
        let walled = box_pass(self.box_collider.processor, area, before);
        exists|ev: Seq<Event>, orders: Seq<Seq<usize>>| #[trigger]
            sweep_outcome(self.processor, walled, ev, orders, after)
    }

    fn process_collisions(&self, area: &Area, particles: &mut Vec<Particle>) {
        self.box_collider.process_collisions(area, particles);
        let ghost walled = particles@;
        assert forall|i: int| 0 <= i < walled.len() implies (#[trigger] walled[i]).wf() by {
            assert(old(particles)@[i].same_body(walled[i]));
            assert(old(particles)@[i].wf());
        }

        // create vec holding events, and sort them
        let mut ev: Vec<Event> = events(particles);
        sort_by_coordinate(&mut ev);
        proof {
            assert(walled.len() == particles.len());
            lemma_events_within(walled, ev@);
        }

        self.sweep(&ev, particles);
        proof {
            let orders = choose|orders: Seq<Seq<usize>>| #[trigger]
                sweep_trace(self.processor, walled, ev@, orders, particles@);
            assert(sweep_outcome(self.processor, walled, ev@, orders, particles@));
        }
        assert forall|i: int| 0 <= i < walled.len() implies (#[trigger] old(particles)@[i]).same_body(
            particles@[i],
        ) by {
            assert(old(particles)@[i].same_body(walled[i]));
            assert(walled[i].same_body(particles@[i]));
        }
    }
}

/// Every event of `ps` names a particle of `ps`.
proof fn lemma_events_name_particles(ps: Seq<Particle>, e: Event)
    requires
        ps.len() <= usize::MAX,
        events_of(ps).contains(e),
    ensures
        e.particle() < ps.len(),
        e == begin_of(ps, e.particle() as int) || e == end_of(ps, e.particle() as int),
{
    let k = choose|k: int| 0 <= k < events_of(ps).len() && events_of(ps)[k] == e;
    assert(0 <= k / 2 < ps.len());
}

/// A sweep order of `ps` names particles of `ps` only.
proof fn lemma_events_within(ps: Seq<Particle>, ev: Seq<Event>)
    requires
        ps.len() <= usize::MAX,
        ev.to_multiset() == events_of(ps).to_multiset(),
    ensures
        events_within(ev, ps.len() as int),
{
    assert forall|k: int| 0 <= k < ev.len() implies (#[trigger] ev[k]).particle() < ps.len() by {
        ev.to_multiset_ensures();
        events_of(ps).to_multiset_ensures();
        assert(ev.contains(ev[k]));
        assert(ev.to_multiset().count(ev[k]) > 0);
        assert(events_of(ps).contains(ev[k]));
        lemma_events_name_particles(ps, ev[k]);
    }
}

/// A particle that came under the sweep line at event `b` is still there
/// after `k` events if none of the events in between is its end.
proof fn lemma_stays_open(ev: Seq<Event>, b: int, k: int, j: usize)
    requires
        0 <= b < k <= ev.len(),
        ev[b] is Begin,
        ev[b].particle() == j,
        forall|p: int| b < p < k ==> !((#[trigger] ev[p]) is End && ev[p].particle() == j),
    ensures
        open_after(ev, k).contains(j),
    decreases k,
{
    if k - 1 > b {
        lemma_stays_open(ev, b, k - 1, j);
        assert(!(ev[k - 1] is End && ev[k - 1].particle() == j));
    }
}

/// A pair that the event `k` gives rise to is among the candidates of every
/// longer run of events.
proof fn lemma_candidate_stays(ev: Seq<Event>, orders: Seq<Seq<usize>>, k: int, n: int, i: usize, j: usize)
    requires
        0 <= k < n <= ev.len(),
        ev[k] is Begin,
        ev[k].particle() == i,
        orders[k].contains(j),
    ensures
        candidates(ev, orders, n).contains((i, j)),
    decreases n,
{
    let before = candidates(ev, orders, n - 1);
    if n - 1 == k {
        let m = choose|m: int| 0 <= m < orders[k].len() && orders[k][m] == j;
        assert(partners(i, orders[k])[m] == (i, j));
        assert((before + partners(i, orders[k]))[before.len() + m] == (i, j));
    } else {
        lemma_candidate_stays(ev, orders, k, n - 1, i, j);
        let w = choose|w: int| 0 <= w < before.len() && before[w] == (i, j);
        match ev[n - 1] {
            Event::Begin(_, x) => {
                assert((before + partners(x, orders[n - 1]))[w] == (i, j));
            },
            Event::End(_, _) => {},
        }
    }
}

/// The place of an event of `ps` in a sweep order of `ps`.
proof fn lemma_event_place(ps: Seq<Particle>, ev: Seq<Event>, e: Event) -> (k: int)
    requires
        ev.to_multiset() == events_of(ps).to_multiset(),
        events_of(ps).contains(e),
    ensures
        0 <= k < ev.len(),
        ev[k] == e,
{
    ev.to_multiset_ensures();
    events_of(ps).to_multiset_ensures();
    assert(ev.to_multiset().count(e) > 0);
    assert(ev.contains(e));
    choose|k: int| 0 <= k < ev.len() && ev[k] == e
}

/// In a sweep order, a particle that begins before another one that it
/// overlaps is still under the line when the other begins.
proof fn lemma_overlap_is_candidate(
    ps: Seq<Particle>,
    ev: Seq<Event>,
    orders: Seq<Seq<usize>>,
    i: int,
    j: int,
    bi: int,
    bj: int,
)
    requires
        ps.len() <= usize::MAX,
        all_wf(ps),
        sweep_order(ev, ps),
        walks(ev, orders),
        0 <= i < ps.len(),
        0 <= j < ps.len(),
        ps[i].overlaps(ps[j]),
        0 <= bj < bi < ev.len(),
        ev[bi] == begin_of(ps, i),
        ev[bj] == begin_of(ps, j),
    ensures
        candidates(ev, orders, ev.len() as int).contains((i as usize, j as usize)),
{
    let dx = ps[i].pos.x - ps[j].pos.x;
    let dy = ps[i].pos.y - ps[j].pos.y;
    let reach = ps[i].radius + ps[j].radius;
    assert(ps[i].wf() && ps[j].wf());
    assert(dx < reach) by (nonlinear_arith)
        requires
            dx * dx + dy * dy < reach * reach,
            reach > 0,
    ;
    assert forall|p: int| bj < p < bi implies !((#[trigger] ev[p]) is End && ev[p].particle() == j as usize) by {
        if ev[p] is End && ev[p].particle() == j as usize {
            ev.to_multiset_ensures();
            events_of(ps).to_multiset_ensures();
            assert(ev.contains(ev[p]));
            assert(ev.to_multiset().count(ev[p]) > 0);
            assert(events_of(ps).contains(ev[p]));
            lemma_events_name_particles(ps, ev[p]);
            assert(ev[p] == end_of(ps, j));
            assert(ev[p].coordinate() <= ev[bi].coordinate());
        }
    }
    lemma_stays_open(ev, bj, bi, j as usize);
    assert(orders[bi].to_set().contains(j as usize));
    lemma_candidate_stays(ev, orders, bi, ev.len() as int, i as usize, j as usize);
}

/// The candidates of the sweep hold every pair that truly collides: in any
/// sweep order of `ps`, and whatever the order in which the open particles
/// are walked, two different particles that overlap are paired, one way
/// round or the other.
pub proof fn lemma_candidates_cover_overlaps(
    ps: Seq<Particle>,
    ev: Seq<Event>,
    orders: Seq<Seq<usize>>,
    i: int,
    j: int,
)
    requires
        ps.len() <= usize::MAX,
        all_wf(ps),
        sweep_order(ev, ps),
        walks(ev, orders),
        0 <= i < ps.len(),
        0 <= j < ps.len(),
        i != j,
        ps[i].overlaps(ps[j]),
    ensures
        candidates(ev, orders, ev.len() as int).contains((i as usize, j as usize)) || candidates(
            ev,
            orders,
            ev.len() as int,
        ).contains((j as usize, i as usize)),
{
    assert(events_of(ps)[2 * i] == begin_of(ps, i));
    assert(events_of(ps)[2 * j] == begin_of(ps, j));
    let bi = lemma_event_place(ps, ev, begin_of(ps, i));
    let bj = lemma_event_place(ps, ev, begin_of(ps, j));
    if bj < bi {
        lemma_overlap_is_candidate(ps, ev, orders, i, j, bi, bj);
    } else {
        assert(bi != bj);
        let dx = ps[i].pos.x - ps[j].pos.x;
        let dy = ps[i].pos.y - ps[j].pos.y;
        assert((-dx) * (-dx) == dx * dx && (-dy) * (-dy) == dy * dy) by (nonlinear_arith);
        assert(ps[j].overlaps(ps[i]));
        lemma_overlap_is_candidate(ps, ev, orders, j, i, bj, bi);
    }
}

/// The extents of `p` and `q` along the x-axis share a point.
pub open spec fn extents_meet(p: Particle, q: Particle) -> bool {
    p.pos.x - p.radius <= q.pos.x + q.radius && q.pos.x - q.radius <= p.pos.x + p.radius
}

/// The events of `ps` are all different.
proof fn lemma_events_distinct(ps: Seq<Particle>)
    requires
        ps.len() <= usize::MAX,
    ensures
        events_of(ps).no_duplicates(),
{
    let es = events_of(ps);
    assert forall|a: int, b: int| 0 <= a < es.len() && 0 <= b < es.len() && a != b implies es[a] != es[b] by {
        if a % 2 == b % 2 {
            assert(a / 2 != b / 2);
            assert(es[a].particle() == (a / 2) as usize);
            assert(es[b].particle() == (b / 2) as usize);
        }
    }
}

/// A sweep order holds no event twice.
proof fn lemma_sweep_order_distinct(ps: Seq<Particle>, ev: Seq<Event>)
    requires
        ps.len() <= usize::MAX,
        ev.to_multiset() == events_of(ps).to_multiset(),
    ensures
        ev.no_duplicates(),
{
    lemma_events_distinct(ps);
    events_of(ps).lemma_multiset_has_no_duplicates();
    ev.lemma_multiset_has_no_duplicates_conv();
}

/// An event of a sweep order is the beginning or the end of the particle
/// that it names.
proof fn lemma_event_of_order(ps: Seq<Particle>, ev: Seq<Event>, k: int)
    requires
        ps.len() <= usize::MAX,
        ev.to_multiset() == events_of(ps).to_multiset(),
        0 <= k < ev.len(),
    ensures
        ev[k].particle() < ps.len(),
        ev[k] is Begin ==> ev[k] == begin_of(ps, ev[k].particle() as int),
        ev[k] is End ==> ev[k] == end_of(ps, ev[k].particle() as int),
{
    ev.to_multiset_ensures();
    events_of(ps).to_multiset_ensures();
    assert(ev.contains(ev[k]));
    assert(ev.to_multiset().count(ev[k]) > 0);
    assert(events_of(ps).contains(ev[k]));
    lemma_events_name_particles(ps, ev[k]);
}

/// A particle under the sweep line has begun, at some event `b`, and has not
/// ended since.
proof fn lemma_open_has_begun(ev: Seq<Event>, k: int, j: usize) -> (b: int)
    requires
        0 <= k <= ev.len(),
        open_after(ev, k).contains(j),
    ensures
        0 <= b < k,
        ev[b] is Begin,
        ev[b].particle() == j,
        forall|m: int| b < m < k ==> !((#[trigger] ev[m]) is End && ev[m].particle() == j),
    decreases k,
{
    match ev[k - 1] {
        Event::Begin(_, i) => {
            if i == j {
                k - 1
            } else {
                lemma_open_has_begun(ev, k - 1, j)
            }
        },
        Event::End(_, i) => {
            lemma_open_has_begun(ev, k - 1, j)
        },
    }
}

/// More events give more candidates, never fewer.
proof fn lemma_candidates_grow(ev: Seq<Event>, orders: Seq<Seq<usize>>, k: int, n: int)
    requires
        0 <= k <= n,
    ensures
        candidates(ev, orders, k).len() <= candidates(ev, orders, n).len(),
    decreases n,
{
    if k < n {
        lemma_candidates_grow(ev, orders, k, n - 1);
    }
}

/// Where candidate `a` comes from: the beginning `k` that gave rise to it,
/// and the place `m` of its partner in the walk at that beginning.
proof fn lemma_candidate_origin(ev: Seq<Event>, orders: Seq<Seq<usize>>, n: int, a: int) -> (origin: (int, int))
    requires
        0 <= n <= ev.len(),
        0 <= a < candidates(ev, orders, n).len(),
    ensures
        0 <= origin.0 < n,
        ev[origin.0] is Begin,
        0 <= origin.1 < orders[origin.0].len(),
        a == candidates(ev, orders, origin.0).len() + origin.1,
        candidates(ev, orders, n)[a] == (ev[origin.0].particle(), orders[origin.0][origin.1]),
    decreases n,
{
    let before = candidates(ev, orders, n - 1);
    if a < before.len() {
        lemma_candidate_origin(ev, orders, n - 1, a)
    } else {
        (n - 1, a - before.len())
    }
}

/// Every candidate names two different particles whose extents along the
/// x-axis meet: the sweep pairs no particle with itself, and none with a
/// particle that the sweep line has left or not yet reached.
pub proof fn lemma_candidates_meet(ps: Seq<Particle>, ev: Seq<Event>, orders: Seq<Seq<usize>>, a: int)
    requires
        ps.len() <= usize::MAX,
        all_wf(ps),
        sweep_order(ev, ps),
        walks(ev, orders),
        0 <= a < candidates(ev, orders, ev.len() as int).len(),
    ensures
        ({
            let (i, j) = candidates(ev, orders, ev.len() as int)[a];
            &&& i != j
            &&& i < ps.len()
            &&& j < ps.len()
            &&& extents_meet(ps[i as int], ps[j as int])
        }),
{
    let (k, m) = lemma_candidate_origin(ev, orders, ev.len() as int, a);
    let i = ev[k].particle();
    let j = orders[k][m];
    assert(orders[k].contains(j));
    assert(orders[k].to_set().contains(j));
    let b = lemma_open_has_begun(ev, k, j);
    lemma_event_of_order(ps, ev, k);
    lemma_event_of_order(ps, ev, b);
    lemma_sweep_order_distinct(ps, ev);
    assert(ps[i as int].wf() && ps[j as int].wf());
    assert(events_of(ps)[2 * j + 1] == end_of(ps, j as int));
    let e = lemma_event_place(ps, ev, end_of(ps, j as int));
    assert(ev[b].coordinate() <= ev[k].coordinate());
    if e < b {
        assert(ev[e].coordinate() <= ev[b].coordinate());
    } else {
        assert(ev[e] is End && ev[e].particle() == j);
        assert(e > k);
        assert(ev[k].coordinate() <= ev[e].coordinate());
    }
}

/// No two particles are candidates twice in one sweep, neither the same way
/// round nor the other.
pub proof fn lemma_candidates_once(ps: Seq<Particle>, ev: Seq<Event>, orders: Seq<Seq<usize>>, a: int, b: int)
    requires
        ps.len() <= usize::MAX,
        all_wf(ps),
        sweep_order(ev, ps),
        walks(ev, orders),
        0 <= a < b < candidates(ev, orders, ev.len() as int).len(),
    ensures
        ({
            let first = candidates(ev, orders, ev.len() as int)[a];
            let second = candidates(ev, orders, ev.len() as int)[b];
            first != second && first != (second.1, second.0)
        }),
{
    let n = ev.len() as int;
    let (ka, ma) = lemma_candidate_origin(ev, orders, n, a);
    let (kb, mb) = lemma_candidate_origin(ev, orders, n, b);
    lemma_candidates_meet(ps, ev, orders, a);
    lemma_candidates_meet(ps, ev, orders, b);
    lemma_sweep_order_distinct(ps, ev);
    lemma_event_of_order(ps, ev, ka);
    lemma_event_of_order(ps, ev, kb);
    if ka > kb {
        lemma_candidates_grow(ev, orders, kb + 1, ka);
        assert(candidates(ev, orders, kb + 1).len() == candidates(ev, orders, kb).len() + orders[kb].len());
    } else if ka < kb {
        let first = candidates(ev, orders, n)[a];
        let second = candidates(ev, orders, n)[b];
        if first == second {
            assert(ev[ka] == ev[kb]);
        }
        if first == (second.1, second.0) {
            let partner = orders[ka][ma];
            assert(orders[ka].contains(partner));
            assert(orders[ka].to_set().contains(partner));
            let earlier = lemma_open_has_begun(ev, ka, partner);
            lemma_event_of_order(ps, ev, earlier);
            assert(ev[earlier] == ev[kb]);
        }
    }
}

/// Two particles that overlap collide exactly once in a sweep, whatever the
/// order of the events and of the walks.
pub proof fn lemma_two_particles_collide<C: CollisionProcessor>(
    processor: C,
    ps: Seq<Particle>,
    ev: Seq<Event>,
    orders: Seq<Seq<usize>>,
)
    requires
        ps.len() == 2,
        all_wf(ps),
        sweep_order(ev, ps),
        walks(ev, orders),
        ps[0].overlaps(ps[1]),
    ensures
        swept(processor, ps, ev, orders) == struck(processor, ps, (0usize, 1usize)),
{
    let pairs = candidates(ev, orders, ev.len() as int);
    lemma_candidates_cover_overlaps(ps, ev, orders, 0, 1);
    assert(pairs.len() >= 1);
    lemma_candidates_meet(ps, ev, orders, 0);
    if pairs.len() >= 2 {
        lemma_candidates_meet(ps, ev, orders, 1);
        lemma_candidates_once(ps, ev, orders, 0, 1);
    }
    let dx = ps[0].pos.x - ps[1].pos.x;
    let dy = ps[0].pos.y - ps[1].pos.y;
    assert((-dx) * (-dx) == dx * dx && (-dy) * (-dy) == dy * dy) by (nonlinear_arith);
    assert(ps[1].overlaps(ps[0]));
    assert(pairs.drop_last().len() == 0);
    assert(resolved(processor, ps, pairs.drop_last()) == ps);
    assert(struck(processor, ps, pairs.last()) == struck(processor, ps, (0usize, 1usize)));
}

/// No two different particles of `ps` overlap.
pub open spec fn all_apart(ps: Seq<Particle>) -> bool {
    forall|i: int, j: int| 0 <= i < ps.len() && 0 <= j < ps.len() && i != j ==> !(#[trigger] ps[i]).overlaps(#[trigger] ps[j])
}

/// Where nothing overlaps, looking at pairs changes nothing.
proof fn lemma_resolved_free<C: CollisionProcessor>(processor: C, ps: Seq<Particle>, pairs: Seq<(usize, usize)>)
    requires
        all_apart(ps),
    ensures
        resolved(processor, ps, pairs) == ps,
    decreases pairs.len(),
{
    if pairs.len() > 0 {
        lemma_resolved_free(processor, ps, pairs.drop_last());
    }
}

/// Particles of which no two overlap pass the sweep untouched, whatever
/// the order of the events and of the walks.
pub proof fn lemma_swept_free<C: CollisionProcessor>(
    processor: C,
    ps: Seq<Particle>,
    ev: Seq<Event>,
    orders: Seq<Seq<usize>>,
)
    requires
        all_apart(ps),
    ensures
        swept(processor, ps, ev, orders) == ps,
{
    lemma_resolved_free(processor, ps, candidates(ev, orders, ev.len() as int));
}

/// Where no particle touches a wall and no two overlap, the collider leaves
/// every particle as it found it.
pub proof fn lemma_nothing_to_resolve<C: CollisionProcessor, B: CollisionProcessor>(
    collider: SweepCollider<C, B>,
    area: Area,
    before: Seq<Particle>,
    after: Seq<Particle>,
)
    requires
        all_clear(area, before),
        all_apart(before),
        collider.resolves(area, before, after),
    ensures
        after == before,
{
    lemma_box_pass_free(collider.box_collider.processor, area, before);
    let (ev, orders) = choose|ev: Seq<Event>, orders: Seq<Seq<usize>>| #[trigger]
        sweep_outcome(collider.processor, before, ev, orders, after);
    lemma_swept_free(collider.processor, before, ev, orders);
}

} // verus!
