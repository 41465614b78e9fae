//! A small interactive model: a simulation filled with random traffic and
//! stepped a tenth of a second at a time, at the user's word or by itself.

use vstd::prelude::*;
use rand_xorshift::XorShiftRng;
use crate::car::{Car, CarState, DrawCarInput, Route};
use crate::driving::DrivingSimState;
use crate::model::SimView;
use crate::random::{choose_turn, gen_range_i32, gen_ratio, rand_dist, seeded_rng};
use crate::topology::{LaneID, MapTopology, Traversable, TurnID, TurnType};
use crate::units::{Distance, Time, MAX_VEHICLE_LENGTH, MIN_VEHICLE_LENGTH, SLOW_VEHICLE_SPEED};
use crate::vehicle::{CarID, Vehicle, VehicleType};

verus! {

/// The time between two steps of the model, in milliseconds.
pub const MILLIS_PER_TICK: u64 = 100;

/// The time by which each car of a batch of five appears after the one
/// before it, in milliseconds.
pub const SPAWN_STAGGER: u64 = 200;

/// The most turns a random route takes.
pub const MAX_TURNS: usize = 5;

/// The number of cars the model tries to start on each lane it fills.
pub const CARS_PER_SOURCE: usize = 10;

/// The most cars the model tries to start on a lane when it fills every
/// lane.
pub const MOST_PER_LANE: i32 = 4;

/// A count of steps of a tenth of a second.
#[derive(Clone, Copy, Debug, PartialEq, Eq, Hash, Structural)]
pub struct Tick(pub u32);

impl Tick {
    pub fn zero() -> (t: Tick)
        ensures
            t == Tick(0),
    {
        Tick(0)
    }

    /// The tick after this one. The last tick that can be counted is
    /// followed by itself.
    pub open spec fn next_spec(self) -> Tick {
        if self.0 < u32::MAX {
            Tick((self.0 + 1) as u32)
        } else {
            self
        }
    }

    #[verifier::when_used_as_spec(next_spec)]
    pub fn next(self) -> (t: Tick)
        ensures
            t == self.next_spec(),
    {
        if self.0 < u32::MAX {
            Tick(self.0 + 1)
        } else {
            self
        }
    }

    /// The instant at which this tick begins.
    pub open spec fn as_time_spec(self) -> Time {
        (self.0 * MILLIS_PER_TICK) as Time
    }

    #[verifier::when_used_as_spec(as_time_spec)]
    pub fn as_time(self) -> (t: Time)
        ensures
            t == self.as_time_spec(),
    {
        let wide: u64 = self.0 as u64;
        wide * MILLIS_PER_TICK
    }
}

/// What the user did, as far as the model cares.
#[derive(Clone, Copy, Debug, PartialEq, Eq, Hash, Structural)]
pub enum ControllerInput {
    /// Step once.
    Forwards,
    /// Start or stop stepping by itself.
    ToggleForwardsPlay,
    /// Throw the traffic away and fill every driving lane anew.
    SpawnEverywhere,
    /// Leave the model.
    Quit,
    /// Time has passed and nothing else happened.
    Update,
    /// Anything else.
    Other,
}

/// What the model asks of whoever feeds it input.
#[derive(Clone, Copy, Debug, PartialEq, Eq, Hash, Structural)]
pub struct Reaction {
    /// Whether the model goes on.
    pub keep_running: bool,
    /// Whether to go on sending `Update` without waiting for the user.
    pub animate: bool,
}

/// What holds of the car that the generators make as their `k`-th.
pub open spec fn generated(c: Car, k: int) -> bool {
    &&& c.vehicle.id == CarID(k as usize)
    &&& c.vehicle.vehicle_type == VehicleType::Car
    &&& MIN_VEHICLE_LENGTH <= c.vehicle.length < MAX_VEHICLE_LENGTH
    &&& (c.vehicle.max_speed.is_none() || c.vehicle.max_speed == Some(SLOW_VEHICLE_SPEED))
    &&& c.spawn_time == spawn_time_of(k as usize)
    &&& c.route.parking.is_none()
    &&& c.route.steps@.len() <= 2 * MAX_TURNS + 1
    &&& c.state == CarState::Spawning
}

/// Every car that waits to appear is one the generators make, and they are
/// numbered in the order in which they were made.
pub open spec fn all_generated(pending: Seq<Car>) -> bool {
    forall|k: int| 0 <= k < pending.len() ==> generated(#[trigger] pending[k], k)
}

/// Lane `l` is a lane of the map that is long enough for the longest car
/// the generators make.
pub open spec fn long_enough(map: MapTopology, l: LaneID) -> bool {
    l.0 < map.lanes@.len() && map.lanes@[l.0 as int].length >= MAX_VEHICLE_LENGTH
}

/// Every car that waits to appear starts on one of the given lanes, one
/// that is long enough for the longest car.
pub open spec fn start_among(pending: Seq<Car>, map: MapTopology, sources: Seq<LaneID>) -> bool {
    forall|k: int|
        0 <= k < pending.len() ==> exists|j: int|
            0 <= j < sources.len() && long_enough(map, sources[j]) && (#[trigger] pending[k]).route.steps@[0]
                == Traversable::Lane(#[trigger] sources[j])
}

/// Every car that waits to appear starts on a driving lane that is long
/// enough for the longest car.
pub open spec fn start_on_driving_lanes(pending: Seq<Car>, map: MapTopology) -> bool {
    forall|k: int|
        0 <= k < pending.len() ==> exists|l: int|
            0 <= l < map.lanes@.len() && map.lanes@[l].is_driving_spec() && long_enough(map, LaneID(l as usize))
                && (#[trigger] pending[k]).route.steps@[0] == Traversable::Lane(LaneID(l as usize))
}

/// The driving lanes over the way of the lanes that the given turns lead
/// straight on to, in the order of the turns.
pub open spec fn lanes_over_the_way(map: MapTopology, turns: Seq<TurnID>) -> Seq<LaneID>
    decreases turns.len(),
{
    if turns.len() == 0 {
        Seq::<LaneID>::empty()
    } else {
        let before = lanes_over_the_way(map, turns.drop_last());
        let turn = map.turns@[turns.last().0 as int];
        match map.lanes@[turn.dst.0 as int].other_side {
            Some(other) => if turn.turn_type == TurnType::Straight {
                before.push(other)
            } else {
                before
            },
            None => before,
        }
    }
}

/// The lanes on which traffic around lane `start` begins: `start` itself
/// and, for each turn that leads straight on from it, the driving lane
/// over the way of the lane the turn leads to.
pub open spec fn source_lanes_spec(map: MapTopology, start: LaneID) -> Seq<LaneID> {
    seq![start] + lanes_over_the_way(map, map.turns_from_lane_spec(start))
}

/// The simulation has not run yet and nothing is on the road; the cars that
/// wait to appear, if any, were made by the generators.
pub open spec fn only_generated_wait(sim: SimView, map: MapTopology) -> bool {
    &&& sim == (SimView { pending: sim.pending, ..SimView::initial(map) })
    &&& all_generated(sim.pending)
}

/// A route from lane `start` that takes up to five turns, each drawn from
/// those that leave the lane the route has reached. It ends early at a lane
/// that no turn leaves.
pub fn random_path(start: LaneID, rng: &mut XorShiftRng, map: &MapTopology) -> (path: Vec<Traversable>)
    requires
        map.wf(),
        start.0 < map.lanes@.len(),
    ensures
        map.valid_route(path@),
        path@[0] == Traversable::Lane(start),
        path@.len() <= 2 * MAX_TURNS + 1,
        path@.len() < 2 * MAX_TURNS + 1 ==> map.turns_from_lane_spec(LaneID(path@.last().lane_index() as usize)).len()
            == 0,
{
    let mut path: Vec<Traversable> = Vec::new();
    path.push(Traversable::Lane(start));
    let mut last_lane = start;
    let mut taken: usize = 0;
    let mut open_road = true;
    assert(map.step_ok(path@, 0));
    while taken < MAX_TURNS && open_road
        invariant
            map.wf(),
            taken <= MAX_TURNS,
            path@.len() == 2 * taken + 1,
            map.valid_route(path@),
            path@[0] == Traversable::Lane(start),
            path@.last() == Traversable::Lane(last_lane),
            last_lane.0 < map.lanes@.len(),
            !open_road ==> map.turns_from_lane_spec(last_lane).len() == 0,
        decreases MAX_TURNS - taken + (if open_road { 1int } else { 0int }),
    {
        let turns = map.turns_from_lane(last_lane);
        match choose_turn(&turns, rng) {
            Some(t) => {
                let ghost k = choose|k: int| 0 <= k < turns@.len() && turns@[k] == t;
                assert(turns@[k].0 < map.turns@.len());
                assert(map.turn_ok(t.0 as int));
                let ghost before = path@;
                let dst = map.turns[t.0].dst;
                path.push(Traversable::Turn(t));
                path.push(Traversable::Lane(dst));
                last_lane = dst;
                taken += 1;
                proof {
                    assert forall|j: int| 0 <= j < path@.len() implies #[trigger] map.step_ok(path@, j) by {
                        if j < before.len() {
                            assert(map.step_ok(before, j));
                            assert(path@[j] == before[j]);
                            if j % 2 == 1 {
                                assert(path@[j - 1] == before[j - 1]);
                                assert(path@[j + 1] == before[j + 1]);
                            }
                        }
                    }
                }
            },
            None => {
                open_road = false;
            },
        }
    }
    path
}

/// The vehicle that the choices make: of the class `Car`, with the given
/// identity and length, capped at the speed of a slow vehicle or not at
/// all.
pub open spec fn car_of_choice(id: usize, slow: bool, length: Distance) -> Vehicle {
    Vehicle {
        id: CarID(id),
        vehicle_type: VehicleType::Car,
        length,
        max_speed: if slow {
            Some(SLOW_VEHICLE_SPEED)
        } else {
            None
        },
    }
}

/// When the car numbered `id` appears: the cars come in batches of five,
/// each car of a batch a fifth of a second after the one before it.
pub open spec fn spawn_time_of(id: usize) -> Time {
    (SPAWN_STAGGER * (id % 5)) as Time
}

/// Whether the car that the choices make is offered and taken in: a trip
/// along a single lane to where it starts or before is not offered.
pub open spec fn choice_taken(
    sim: SimView,
    id: usize,
    path: Vec<Traversable>,
    slow: bool,
    length: Distance,
    start_dist: Distance,
    end_dist: Distance,
) -> bool {
    !(path@.len() == 1 && start_dist >= end_dist) && sim.spawn_error(
        car_of_choice(id, slow, length),
        Route { steps: path, parking: None },
        start_dist,
        end_dist,
    ).is_none()
}

/// Offers the simulation the car that the given choices make: the route to
/// take, whether the car is a slow one, its length and where it starts and
/// ends. Tells whether the car was taken in.
pub fn offer_car(
    sim: &mut DrivingSimState,
    id: usize,
    path: Vec<Traversable>,
    slow: bool,
    length: Distance,
    start_dist: Distance,
    end_dist: Distance,
) -> (taken: bool)
    requires
        old(sim).wf(),
    ensures
        final(sim).wf(),
        taken == choice_taken(old(sim)@, id, path, slow, length, start_dist, end_dist),
        !taken ==> final(sim)@ == old(sim)@,
        taken ==> final(sim)@ == old(sim)@.spawned(
            car_of_choice(id, slow, length),
            Route { steps: path, parking: None },
            spawn_time_of(id),
            start_dist,
            end_dist,
        ),
{
    if path.len() == 1 && start_dist >= end_dist {
        return false;
    }
    let max_speed = if slow {
        Some(SLOW_VEHICLE_SPEED)
    } else {
        None
    };
    let spawn_time = SPAWN_STAGGER * ((id % 5) as u64);
    let vehicle = Vehicle { id: CarID(id), vehicle_type: VehicleType::Car, length, max_speed };
    let outcome = sim.spawn(vehicle, Route::new(path), spawn_time, start_dist, end_dist);
    outcome.is_ok()
}

/// Offers the simulation one random car that starts on `start_lane`: its
/// route, whether it is slow, its length and where it starts and ends are
/// drawn in that order. Tells whether the car was taken in. None is offered
/// along a single lane to where it starts or before, nor to a lane of no
/// length; where `sure_start` holds of the lane, the car is taken in.
pub fn spawn_car(sim: &mut DrivingSimState, rng: &mut XorShiftRng, id: usize, start_lane: LaneID) -> (spawned: bool)
    requires
        old(sim).wf(),
        start_lane.0 < old(sim)@.map.lanes@.len(),
        old(sim)@.map.lanes@[start_lane.0 as int].length >= MAX_VEHICLE_LENGTH,
    ensures
        final(sim).wf(),
        !spawned ==> final(sim)@ == old(sim)@,
        spawned ==> final(sim)@.pending.len() == old(sim)@.pending.len() + 1 && final(sim)@ == old(sim)@.with_pending(
            final(sim)@.pending.last(),
        ) && generated(final(sim)@.pending.last(), id as int) && final(sim)@.pending.last().route.steps@[0]
            == Traversable::Lane(start_lane),
        sure_start(old(sim)@.map, start_lane) ==> spawned,
        exists|path: Vec<Traversable>, slow: bool, length: Distance, start_dist: Distance, end_dist: Distance|
            #[trigger] drawn_outcome(old(sim)@, final(sim)@, spawned, id, start_lane, path, slow, length, start_dist, end_dist),
{
    let path = random_path(start_lane, rng, sim.map());
    let slow = gen_ratio(rng, 1, 10);
    let steps = path.len();
    assert(sim@.map.step_ok(path@, steps - 1));
    assert(steps >= 3 ==> sim@.map.step_ok(path@, steps - 2));
    let last_lane = match path[steps - 1] {
        Traversable::Lane(l) => l.0,
        Traversable::Turn(_) => 0,
    };
    let vehicle_len = rand_dist(rng, MIN_VEHICLE_LENGTH, MAX_VEHICLE_LENGTH);
    let first_length = sim.map().lanes[start_lane.0].length;
    let front = rand_dist(rng, vehicle_len, first_length);
    let start_dist = front - vehicle_len;
    let last_length = sim.map().lanes[last_lane].length;
    if last_length == 0 {
        assert(drawn_outcome(sim@, sim@, false, id, start_lane, path, slow, vehicle_len, start_dist, 0));
        return false;
    }
    let end_dist = rand_dist(rng, 0, last_length);
    let ghost chosen = path;
    let taken = offer_car(sim, id, path, slow, vehicle_len, start_dist, end_dist);
    proof {
        assert(drawn_outcome(old(sim)@, sim@, taken, id, start_lane, chosen, slow, vehicle_len, start_dist, end_dist));
        if taken {
            lemma_drawn_is_generated(old(sim)@, sim@, id, start_lane, chosen, slow, vehicle_len, start_dist, end_dist);
        }
    }
    taken
}

/// Offers the simulation ten random cars on each of the given lanes that is
/// long enough for the longest car, lane after lane, and numbers the cars
/// that are taken in on from those that wait already. A lane that a turn
/// leaves gets all ten where every turn leads to a lane of some length; on
/// another the draws decide of each.
fn fill_sources(sim: &mut DrivingSimState, rng: &mut XorShiftRng, sources: &Vec<LaneID>)
    requires
        old(sim).wf(),
        only_generated_wait(old(sim)@, old(sim)@.map),
        forall|k: int| 0 <= k < sources@.len() ==> (#[trigger] sources@[k]).0 < old(sim)@.map.lanes@.len(),
        start_among(old(sim)@.pending, old(sim)@.map, sources@),
    ensures
        final(sim).wf(),
        only_generated_wait(final(sim)@, old(sim)@.map),
        start_among(final(sim)@.pending, old(sim)@.map, sources@),
        final(sim)@.pending.len() <= old(sim)@.pending.len() + CARS_PER_SOURCE * sources@.len(),
        final(sim)@.pending.len() <= old(sim)@.pending.len() + CARS_PER_SOURCE * long_sources(
            old(sim)@.map,
            sources@,
        ),
        final(sim)@.pending.len() >= old(sim)@.pending.len() + CARS_PER_SOURCE * sure_sources(
            old(sim)@.map,
            sources@,
        ),
        final(sim)@.pending.subrange(0, old(sim)@.pending.len() as int) == old(sim)@.pending,
        shared_out(old(sim)@.pending, final(sim)@.pending, old(sim)@.map, sources@),
{
    let ghost map = sim@.map;
    let ghost waiting = sim@.pending;
    let ghost had = sim@.pending.len();
    let mut counter: usize = sim.num_pending();
    let mut s: usize = 0;
    proof {
        assert(sources@.subrange(0, 0) =~= Seq::<LaneID>::empty());
        assert(sim@.pending.subrange(0, had as int) =~= waiting);
    }
    while s < sources.len()
        invariant
            s <= sources@.len(),
            sim.wf(),
            only_generated_wait(sim@, map),
            start_among(sim@.pending, map, sources@),
            counter == sim@.pending.len(),
            had == waiting.len(),
            counter <= had + CARS_PER_SOURCE * s,
            counter <= had + CARS_PER_SOURCE * long_sources(map, sources@.subrange(0, s as int)),
            counter >= had + CARS_PER_SOURCE * sure_sources(map, sources@.subrange(0, s as int)),
            sim@.pending.subrange(0, had as int) == waiting,
            shared_out(waiting, sim@.pending, map, sources@.subrange(0, s as int)),
            forall|k: int| 0 <= k < sources@.len() ==> (#[trigger] sources@[k]).0 < map.lanes@.len(),
        decreases sources@.len() - s,
    {
        let source = sources[s];
        let ghost base = counter;
        let ghost mid = sim@.pending;
        proof {
            assert(sources@.subrange(0, s + 1).drop_last() =~= sources@.subrange(0, s as int));
            assert(sources@.subrange(0, s + 1).last() == source);
        }
        if sim.map().lanes[source.0].length >= MAX_VEHICLE_LENGTH {
            let mut tries: usize = 0;
            while tries < CARS_PER_SOURCE
                invariant
                    tries <= CARS_PER_SOURCE,
                    sim.wf(),
                    only_generated_wait(sim@, map),
                    start_among(sim@.pending, map, sources@),
                    counter == sim@.pending.len(),
                    had == waiting.len(),
                    had <= base <= counter,
                    counter <= base + tries,
                    sure_start(map, source) ==> counter == base + tries,
                    forall|l: LaneID| #[trigger]
                        starts_on(sim@.pending, l) == starts_on(mid, l) + if l == source {
                            counter - base
                        } else {
                            0
                        },
                    sim@.pending.subrange(0, had as int) == waiting,
                    s < sources@.len(),
                    source == sources@[s as int],
                    source.0 < map.lanes@.len(),
                    map.lanes@[source.0 as int].length >= MAX_VEHICLE_LENGTH,
                decreases CARS_PER_SOURCE - tries,
            {
                let ghost before = sim@;
                if spawn_car(sim, rng, counter, source) {
                    proof {
                        lemma_one_more_generated(before, sim@, map);
                        lemma_one_more_starts_among(before, sim@, map, sources@, s as int);
                        assert(sim@.pending.subrange(0, had as int) =~= before.pending.subrange(0, had as int));
                        assert(sim@.pending == before.pending.push(sim@.pending.last()));
                        assert forall|l: LaneID| #[trigger]
                            starts_on(sim@.pending, l) == starts_on(before.pending, l) + if l == source {
                                1int
                            } else {
                                0int
                            } by {
                            lemma_starts_on_push(before.pending, sim@.pending.last(), l);
                        }
                    }
                    counter = sim.num_pending();
                }
                tries += 1;
            }
        }
        proof {
            let done = sources@.subrange(0, s as int);
            let more = sources@.subrange(0, s + 1);
            assert forall|l: LaneID| #[trigger]
                times_among(more, l) == times_among(done, l) + if l == source {
                    1int
                } else {
                    0int
                } by {}
            assert(shared_out(waiting, sim@.pending, map, more)) by {
                assert forall|l: LaneID|
                    {
                        &&& #[trigger] starts_on(sim@.pending, l) <= starts_on(waiting, l) + CARS_PER_SOURCE
                            * times_among(more, l)
                        &&& starts_on(sim@.pending, l) >= starts_on(waiting, l)
                        &&& long_enough(map, l) && sure_start(map, l) ==> starts_on(sim@.pending, l) == starts_on(
                            waiting,
                            l,
                        ) + CARS_PER_SOURCE * times_among(more, l)
                        &&& !long_enough(map, l) ==> starts_on(sim@.pending, l) == starts_on(waiting, l)
                    } by {
                    assert(starts_on(mid, l) <= starts_on(waiting, l) + CARS_PER_SOURCE * times_among(done, l));
                    assert(times_among(more, l) == times_among(done, l) + if l == source {
                        1int
                    } else {
                        0int
                    });
                }
            }
        }
        s += 1;
    }
    proof {
        assert(sources@.subrange(0, sources@.len() as int) =~= sources@);
    }
}

/// How many of the cars start on lane `l`.
pub open spec fn starts_on(cars: Seq<Car>, l: LaneID) -> nat
    decreases cars.len(),
{
    if cars.len() == 0 {
        0
    } else {
        starts_on(cars.drop_last(), l) + if cars.last().route.steps@[0] == Traversable::Lane(l) {
            1nat
        } else {
            0nat
        }
    }
}

/// How often lane `l` is among the lanes.
pub open spec fn times_among(sources: Seq<LaneID>, l: LaneID) -> nat
    decreases sources.len(),
{
    if sources.len() == 0 {
        0
    } else {
        times_among(sources.drop_last(), l) + if sources.last() == l {
            1nat
        } else {
            0nat
        }
    }
}

/// On no lane do more than `most` of the cars start.
pub open spec fn at_most_per_lane(cars: Seq<Car>, most: nat) -> bool {
    forall|l: LaneID| #[trigger] starts_on(cars, l) <= most
}

/// What filling the given lanes adds to the cars that wait, lane by lane:
/// at most ten cars for each time the lane is among those to fill; all ten
/// each time where the lane is long enough for the longest car and a random
/// car that starts on it is sure to be taken in; none where it is too
/// short.
pub open spec fn shared_out(before: Seq<Car>, after: Seq<Car>, map: MapTopology, sources: Seq<LaneID>) -> bool {
    forall|l: LaneID|
        {
            &&& #[trigger] starts_on(after, l) <= starts_on(before, l) + CARS_PER_SOURCE * times_among(sources, l)
            &&& starts_on(after, l) >= starts_on(before, l)
            &&& long_enough(map, l) && sure_start(map, l) ==> starts_on(after, l) == starts_on(before, l)
                + CARS_PER_SOURCE * times_among(sources, l)
            &&& !long_enough(map, l) ==> starts_on(after, l) == starts_on(before, l)
        }
}

/// One more car counts for the lane it starts on and for no other.
proof fn lemma_starts_on_push(cars: Seq<Car>, c: Car, l: LaneID)
    ensures
        starts_on(cars.push(c), l) == starts_on(cars, l) + if c.route.steps@[0] == Traversable::Lane(l) {
            1nat
        } else {
            0nat
        },
{
    assert(cars.push(c).drop_last() =~= cars);
}

/// A turn leaves lane `l`, and every turn of the map leads to a lane of
/// some length: a random car that starts on `l` is sure to be taken in.
pub open spec fn sure_start(map: MapTopology, l: LaneID) -> bool {
    &&& map.turns_from_lane_spec(l).len() > 0
    &&& forall|t: int| 0 <= t < map.turns@.len() ==> map.lanes@[(#[trigger] map.turns@[t]).dst.0 as int].length > 0
}

/// How many of the lanes are long enough for the longest car.
pub open spec fn long_sources(map: MapTopology, sources: Seq<LaneID>) -> nat
    decreases sources.len(),
{
    if sources.len() == 0 {
        0
    } else {
        long_sources(map, sources.drop_last()) + if long_enough(map, sources.last()) {
            1nat
        } else {
            0nat
        }
    }
}

/// How many of the lanes are long enough for the longest car and such that
/// a random car that starts on them is sure to be taken in.
pub open spec fn sure_sources(map: MapTopology, sources: Seq<LaneID>) -> nat
    decreases sources.len(),
{
    if sources.len() == 0 {
        0
    } else {
        sure_sources(map, sources.drop_last()) + if long_enough(map, sources.last()) && sure_start(
            map,
            sources.last(),
        ) {
            1nat
        } else {
            0nat
        }
    }
}

/// The steps are a route that a random walk from lane `start` can give: a
/// route over the map of at most five turns, which is shorter only where it
/// ends on a lane that no turn leaves.
pub open spec fn path_drawn(map: MapTopology, start: LaneID, path: Seq<Traversable>) -> bool {
    &&& map.valid_route(path)
    &&& path[0] == Traversable::Lane(start)
    &&& path.len() <= 2 * MAX_TURNS + 1
    &&& path.len() < 2 * MAX_TURNS + 1 ==> map.turns_from_lane_spec(LaneID(path.last().lane_index() as usize)).len()
        == 0
}

/// What offering one random car that starts on `start_lane` comes to, for
/// the draws given: a route from that lane, a length that the generators
/// make, and a start that leaves the car on its first lane. On a route that
/// ends on a lane of no length nothing is offered. On any other the end is
/// drawn on the last lane, and the car that the draws make is offered.
pub open spec fn drawn_outcome(
    before: SimView,
    after: SimView,
    spawned: bool,
    id: usize,
    start_lane: LaneID,
    path: Vec<Traversable>,
    slow: bool,
    length: Distance,
    start_dist: Distance,
    end_dist: Distance,
) -> bool {
    &&& path_drawn(before.map, start_lane, path@)
    &&& MIN_VEHICLE_LENGTH <= length < MAX_VEHICLE_LENGTH
    &&& start_dist + length < before.map.lanes@[start_lane.0 as int].length
    &&& if before.map.length_of(path@.last()) == 0 {
        !spawned && after == before
    } else {
        &&& end_dist < before.map.length_of(path@.last())
        &&& spawned == choice_taken(before, id, path, slow, length, start_dist, end_dist)
        &&& after == if spawned {
            before.spawned(
                car_of_choice(id, slow, length),
                Route { steps: path, parking: None },
                spawn_time_of(id),
                start_dist,
                end_dist,
            )
        } else {
            before
        }
    }
}

/// A random car that was taken in waits to appear as the last, is one the
/// generators make, and starts on the lane it was drawn for.
proof fn lemma_drawn_is_generated(
    before: SimView,
    after: SimView,
    id: usize,
    start_lane: LaneID,
    path: Vec<Traversable>,
    slow: bool,
    length: Distance,
    start_dist: Distance,
    end_dist: Distance,
)
    requires
        drawn_outcome(before, after, true, id, start_lane, path, slow, length, start_dist, end_dist),
    ensures
        after.pending.len() == before.pending.len() + 1,
        after == before.with_pending(after.pending.last()),
        generated(after.pending.last(), id as int),
        after.pending.last().route.steps@[0] == Traversable::Lane(start_lane),
{
    assert(after.pending.last() == (Car {
        vehicle: car_of_choice(id, slow, length),
        route: Route { steps: path, parking: None },
        route_idx: 0,
        dist: start_dist,
        speed: 0,
        state: CarState::Spawning,
        spawn_time: spawn_time_of(id),
        end_dist,
    }));
}

/// One more car that starts on one of the lanes leaves every car starting
/// on one of them.
proof fn lemma_one_more_starts_among(before: SimView, after: SimView, map: MapTopology, sources: Seq<LaneID>, s: int)
    requires
        start_among(before.pending, map, sources),
        after.pending.len() == before.pending.len() + 1,
        after == before.with_pending(after.pending.last()),
        0 <= s < sources.len(),
        long_enough(map, sources[s]),
        after.pending.last().route.steps@[0] == Traversable::Lane(sources[s]),
    ensures
        start_among(after.pending, map, sources),
{
    assert forall|k: int| 0 <= k < after.pending.len() implies exists|j: int|
        0 <= j < sources.len() && long_enough(map, sources[j]) && (#[trigger] after.pending[k]).route.steps@[0]
            == Traversable::Lane(#[trigger] sources[j]) by {
        if k < before.pending.len() {
            assert(after.pending[k] == before.pending[k]);
            let j = choose|j: int|
                0 <= j < sources.len() && long_enough(map, sources[j]) && before.pending[k].route.steps@[0]
                    == Traversable::Lane(#[trigger] sources[j]);
            assert(long_enough(map, sources[j]));
        } else {
            assert(long_enough(map, sources[s]));
        }
    }
}

/// A simulation in which only generated cars wait still is one when it
/// takes in the car the generators make next.
proof fn lemma_one_more_generated(before: SimView, after: SimView, map: MapTopology)
    requires
        only_generated_wait(before, map),
        after.pending.len() == before.pending.len() + 1,
        after == before.with_pending(after.pending.last()),
        generated(after.pending.last(), before.pending.len() as int),
    ensures
        only_generated_wait(after, map),
{
    assert forall|k: int| 0 <= k < after.pending.len() implies generated(#[trigger] after.pending[k], k) by {
        if k < before.pending.len() {
            assert(after.pending[k] == before.pending[k]);
        }
    }
}

/// The lanes on which traffic around lane `start` begins: `start` itself
/// and, for each turn that leads straight on from it, the driving lane
/// over the way of the lane the turn leads to.
pub fn source_lanes(start: LaneID, map: &MapTopology) -> (sources: Vec<LaneID>)
    requires
        map.wf(),
        start.0 < map.lanes@.len(),
    ensures
        sources@ == source_lanes_spec(*map, start),
        sources@.len() <= 1 + map.turns@.len(),
        forall|j: int| 0 <= j < sources@.len() ==> (#[trigger] sources@[j]).0 < map.lanes@.len(),
{
    let mut sources: Vec<LaneID> = Vec::new();
    sources.push(start);
    let turns = map.turns_from_lane(start);
    let mut k: usize = 0;
    assert(turns@.subrange(0, 0) =~= Seq::<TurnID>::empty());
    assert(sources@ =~= seq![start] + lanes_over_the_way(*map, turns@.subrange(0, 0)));
    while k < turns.len()
        invariant
            k <= turns@.len(),
            map.wf(),
            sources@.len() <= 1 + k,
            sources@ == seq![start] + lanes_over_the_way(*map, turns@.subrange(0, k as int)),
            forall|j: int| 0 <= j < turns@.len() ==> (#[trigger] turns@[j]).0 < map.turns@.len(),
            forall|j: int| 0 <= j < sources@.len() ==> (#[trigger] sources@[j]).0 < map.lanes@.len(),
        decreases turns@.len() - k,
    {
        let t = turns[k];
        assert(map.turn_ok(t.0 as int));
        let turn = &map.turns[t.0];
        assert(map.lane_ok(turn.dst.0 as int));
        let ghost had = sources@;
        proof {
            assert(turns@.subrange(0, k + 1).drop_last() =~= turns@.subrange(0, k as int));
            assert(turns@.subrange(0, k + 1).last() == t);
        }
        if turn.turn_type == TurnType::Straight {
            match map.lanes[turn.dst.0].other_side {
                Some(other) => {
                    sources.push(other);
                    assert(sources@ =~= seq![start] + lanes_over_the_way(*map, turns@.subrange(0, k as int)).push(
                        other,
                    ));
                },
                None => {},
            }
        }
        k += 1;
    }
    proof {
        assert(turns@.subrange(0, turns@.len() as int) =~= turns@);
        map.all_turn_ids().lemma_filter_len(map.leaves(start));
    }
    sources
}

/// A simulation on `map` with random traffic that starts on lane `start`
/// and, where a turn leads straight on from it, on a driving lane that
/// runs the other way beyond that turn: up to ten cars on each of these
/// lanes that is long enough for the longest car, and all ten where a
/// random car that starts on the lane is sure to be taken in. The draws
/// come from a generator with a fixed seed.
pub fn populate_sim(start: LaneID, map: MapTopology) -> (sim: DrivingSimState)
    requires
        map.wf(),
        start.0 < map.lanes@.len(),
    ensures
        sim.wf(),
        only_generated_wait(sim@, map),
        start_among(sim@.pending, map, source_lanes_spec(map, start)),
        shared_out(Seq::<Car>::empty(), sim@.pending, map, source_lanes_spec(map, start)),
        sim@.pending.len() >= CARS_PER_SOURCE * sure_sources(map, source_lanes_spec(map, start)),
        sim@.pending.len() <= CARS_PER_SOURCE * long_sources(map, source_lanes_spec(map, start)),
        sim@.pending.len() <= CARS_PER_SOURCE * (1 + map.turns@.len()),
{
    let sources = source_lanes(start, &map);
    proof {
        assert(CARS_PER_SOURCE * sources@.len() <= CARS_PER_SOURCE * (1 + map.turns@.len())) by (nonlinear_arith)
            requires
                sources@.len() <= 1 + map.turns@.len(),
        ;
    }
    let mut sim = DrivingSimState::new(map);
    let mut rng = seeded_rng(42);
    fill_sources(&mut sim, &mut rng, &sources);
    sim
}

/// Clears the road and offers the simulation up to four random cars on
/// every driving lane that is long enough for the longest car. The draws
/// come from a generator with a fixed seed.
pub fn densely_populate_sim(sim: &mut DrivingSimState)
    requires
        old(sim).wf(),
    ensures
        final(sim).wf(),
        only_generated_wait(final(sim)@, old(sim)@.map),
        start_on_driving_lanes(final(sim)@.pending, old(sim)@.map),
        at_most_per_lane(final(sim)@.pending, MOST_PER_LANE as nat),
        final(sim)@.pending.len() <= MOST_PER_LANE * old(sim)@.map.lanes@.len(),
{
    let ghost map = sim@.map;
    sim.restart();
    let mut rng = seeded_rng(42);
    let mut counter: usize = 0;
    let lanes = sim.map().lanes.len();
    let mut l: usize = 0;
    while l < lanes
        invariant
            l <= lanes,
            lanes == map.lanes@.len(),
            sim.wf(),
            only_generated_wait(sim@, map),
            start_on_driving_lanes(sim@.pending, map),
            counter == sim@.pending.len(),
            counter <= MOST_PER_LANE * l,
            at_most_per_lane(sim@.pending, MOST_PER_LANE as nat),
            forall|x: LaneID| x.0 >= l ==> #[trigger] starts_on(sim@.pending, x) == 0,
        decreases lanes - l,
    {
        let lane = &sim.map().lanes[l];
        let ghost mid = sim@.pending;
        let ghost base = counter;
        if lane.is_driving() && lane.length >= MAX_VEHICLE_LENGTH {
            let wanted = gen_range_i32(&mut rng, 0, MOST_PER_LANE + 1);
            let mut tries: i32 = 0;
            while tries < wanted
                invariant
                    0 <= tries <= wanted,
                    base <= counter <= base + tries,
                    forall|x: LaneID| #[trigger]
                        starts_on(sim@.pending, x) == starts_on(mid, x) + if x == LaneID(l) {
                            counter - base
                        } else {
                            0
                        },
                    sim.wf(),
                    only_generated_wait(sim@, map),
                    start_on_driving_lanes(sim@.pending, map),
                    counter == sim@.pending.len(),
                    counter <= MOST_PER_LANE * l + tries,
                    wanted <= MOST_PER_LANE,
                    l < map.lanes@.len(),
                    map.lanes@[l as int].is_driving_spec(),
                    map.lanes@[l as int].length >= MAX_VEHICLE_LENGTH,
                decreases wanted - tries,
            {
                let ghost before = sim@;
                if spawn_car(sim, &mut rng, counter, LaneID(l)) {
                    proof {
                        lemma_one_more_generated(before, sim@, map);
                        assert forall|k: int| 0 <= k < sim@.pending.len() implies exists|j: int|
                            0 <= j < map.lanes@.len() && map.lanes@[j].is_driving_spec() && long_enough(
                                map,
                                LaneID(j as usize),
                            ) && (#[trigger] sim@.pending[k]).route.steps@[0] == Traversable::Lane(
                                LaneID(j as usize),
                            ) by {
                            if k < before.pending.len() {
                                assert(sim@.pending[k] == before.pending[k]);
                                let j = choose|j: int|
                                    0 <= j < map.lanes@.len() && map.lanes@[j].is_driving_spec() && long_enough(
                                        map,
                                        LaneID(j as usize),
                                    ) && before.pending[k].route.steps@[0] == Traversable::Lane(
                                        LaneID(j as usize),
                                    );
                                assert(long_enough(map, LaneID(j as usize)));
                            } else {
                                assert(long_enough(map, LaneID(l)));
                                assert(map.lanes@[l as int].is_driving_spec());
                            }
                        }
                        assert(sim@.pending == before.pending.push(sim@.pending.last()));
                        assert forall|x: LaneID| #[trigger]
                            starts_on(sim@.pending, x) == starts_on(before.pending, x) + if x == LaneID(l) {
                                1int
                            } else {
                                0int
                            } by {
                            lemma_starts_on_push(before.pending, sim@.pending.last(), x);
                        }
                    }
                    counter = sim.num_pending();
                }
                tries += 1;
            }
            proof {
                assert forall|x: LaneID| #[trigger] starts_on(sim@.pending, x) <= MOST_PER_LANE by {
                    assert(starts_on(mid, x) <= MOST_PER_LANE);
                    assert(starts_on(mid, LaneID(l)) == 0);
                }
                assert forall|x: LaneID| x.0 >= l + 1 implies #[trigger] starts_on(sim@.pending, x) == 0 by {
                    assert(starts_on(mid, x) == 0);
                }
            }
        }
        l += 1;
    }
}

/// The first of the cars seen that has the given identity, from place
/// `from` on.
pub open spec fn first_with_id(seen: Seq<DrawCarInput>, id: CarID, from: int) -> Option<DrawCarInput>
    decreases seen.len() - from,
{
    if from < 0 || from >= seen.len() {
        None
    } else if seen[from].id == id {
        Some(seen[from])
    } else {
        first_with_id(seen, id, from + 1)
    }
}

/// The interactive model: a simulation, the tick it has got to, and whether
/// it steps by itself.
pub struct EvenSimplerModelController {
    current_tick: Tick,
    sim: DrivingSimState,
    auto_mode: bool,
}

impl EvenSimplerModelController {
    /// The tick the model has got to.
    pub closed spec fn current_tick(&self) -> Tick {
        self.current_tick
    }

    /// What the model's simulation holds.
    pub closed spec fn sim(&self) -> SimView {
        self.sim@
    }

    /// Whether the model steps by itself.
    pub closed spec fn auto_mode(&self) -> bool {
        self.auto_mode
    }

    pub open spec fn wf(&self) -> bool {
        self.sim().wf()
    }

    /// The user asked for the model where one can be started: on a
    /// driving lane of the map.
    pub open spec fn wanted(map: MapTopology, selected: Option<LaneID>, start_requested: bool) -> bool {
        match selected {
            Some(l) => l.0 < map.lanes@.len() && map.lanes@[l.0 as int].is_driving_spec() && start_requested,
            None => false,
        }
    }

    /// Starts the model if a driving lane is selected and the user asked
    /// for it: at tick zero, waiting for the user, with random traffic that
    /// starts around the selected lane, as `populate_sim` makes it.
    pub fn new(map: MapTopology, selected: Option<LaneID>, start_requested: bool) -> (model: Option<
        EvenSimplerModelController,
    >)
        requires
            map.wf(),
        ensures
            model.is_some() == Self::wanted(map, selected, start_requested),
            model matches Some(m) ==> m.wf() && m.current_tick() == Tick(0) && !m.auto_mode() && only_generated_wait(
                m.sim(),
                map,
            ) && start_among(m.sim().pending, map, source_lanes_spec(map, selected.unwrap())),
            model matches Some(m) ==> shared_out(
                Seq::<Car>::empty(),
                m.sim().pending,
                map,
                source_lanes_spec(map, selected.unwrap()),
            ),
            model matches Some(m) ==> CARS_PER_SOURCE * sure_sources(map, source_lanes_spec(map, selected.unwrap()))
                <= m.sim().pending.len() <= CARS_PER_SOURCE * long_sources(
                map,
                source_lanes_spec(map, selected.unwrap()),
            ),
    {
        match selected {
            Some(id) => {
                if id.0 < map.lanes.len() && map.lanes[id.0].is_driving() && start_requested {
                    return Some(
                        EvenSimplerModelController {
                            current_tick: Tick::zero(),
                            sim: populate_sim(id, map),
                            auto_mode: false,
                        },
                    );
                }
            },
            None => {},
        }
        None
    }

    /// The tick the model gets to on an input.
    pub open spec fn tick_after(&self, input: ControllerInput) -> Tick {
        if self.auto_mode() {
            if input == ControllerInput::Update {
                self.current_tick().next_spec()
            } else {
                self.current_tick()
            }
        } else {
            match input {
                ControllerInput::Forwards => self.current_tick().next_spec(),
                ControllerInput::SpawnEverywhere => Tick(0),
                _ => self.current_tick(),
            }
        }
    }

    /// Whether the model steps by itself after an input.
    pub open spec fn auto_mode_after(&self, input: ControllerInput) -> bool {
        if input == ControllerInput::ToggleForwardsPlay {
            !self.auto_mode()
        } else {
            self.auto_mode()
        }
    }

    /// Whether an input makes the simulation run up to the next tick.
    pub open spec fn steps_on(&self, input: ControllerInput) -> bool {
        if self.auto_mode() {
            input == ControllerInput::Update
        } else {
            input == ControllerInput::Forwards
        }
    }

    /// Whether an input makes the model throw its traffic away and draw
    /// new.
    pub open spec fn refills_on(&self, input: ControllerInput) -> bool {
        !self.auto_mode() && input == ControllerInput::SpawnEverywhere
    }

    /// Takes one input. When stepping by itself the model runs the
    /// simulation up to the next tick as time passes, and stops doing so
    /// when told; otherwise it steps once when told, starts stepping by
    /// itself when told, and on request throws its traffic away and fills
    /// every driving lane anew. It goes on until told to quit.
    pub fn blocking_event(&mut self, input: ControllerInput) -> (reaction: Reaction)
        requires
            old(self).wf(),
        ensures
            final(self).wf(),
            reaction.keep_running == (input != ControllerInput::Quit),
            reaction.animate == (old(self).auto_mode() || input == ControllerInput::ToggleForwardsPlay),
            final(self).current_tick() == old(self).tick_after(input),
            final(self).auto_mode() == old(self).auto_mode_after(input),
            old(self).steps_on(input) ==> final(self).sim() == old(self).sim().advance(
                old(self).current_tick().next_spec().as_time_spec(),
            ),
            old(self).refills_on(input) ==> only_generated_wait(final(self).sim(), old(self).sim().map)
                && start_on_driving_lanes(final(self).sim().pending, old(self).sim().map) && at_most_per_lane(
                final(self).sim().pending,
                MOST_PER_LANE as nat,
            ),
            !old(self).steps_on(input) && !old(self).refills_on(input) ==> final(self).sim() == old(self).sim(),
    {
        let mut animate = false;
        if self.auto_mode {
            animate = true;
            if input == ControllerInput::ToggleForwardsPlay {
                self.auto_mode = false;
            } else if input == ControllerInput::Update {
                self.current_tick = self.current_tick.next();
                self.sim.advance(self.current_tick.as_time());
            }
        } else {
            if input == ControllerInput::Forwards {
                self.current_tick = self.current_tick.next();
                self.sim.advance(self.current_tick.as_time());
            } else if input == ControllerInput::ToggleForwardsPlay {
                self.auto_mode = true;
                animate = true;
            } else if input == ControllerInput::SpawnEverywhere {
                self.current_tick = Tick::zero();
                densely_populate_sim(&mut self.sim);
            }
        }
        Reaction { keep_running: input != ControllerInput::Quit, animate }
    }

    /// Whether the model steps by itself.
    pub fn is_auto_mode(&self) -> (auto: bool)
        ensures
            auto == self.auto_mode(),
    {
        self.auto_mode
    }

    /// The tick the model has got to.
    pub fn tick(&self) -> (t: Tick)
        ensures
            t == self.current_tick(),
    {
        self.current_tick
    }

    /// What may be seen of the first car on the road with the given
    /// identity.
    pub fn get_draw_car(&self, id: CarID) -> (seen: Option<DrawCarInput>)
        requires
            self.wf(),
        ensures
            seen == first_with_id(self.sim().all_cars(), id, 0),
    {
        let all = self.sim.all_cars();
        let mut k: usize = 0;
        while k < all.len()
            invariant
                k <= all@.len(),
                all@ == self.sim().all_cars(),
                first_with_id(all@, id, k as int) == first_with_id(all@, id, 0),
            decreases all@.len() - k,
        {
            if all[k].id == id {
                return Some(all[k]);
            }
            k += 1;
        }
        None
    }

    /// What may be seen of the cars on a segment, front first.
    pub fn get_draw_cars(&self, on: Traversable) -> (seen: Vec<DrawCarInput>)
        requires
            self.wf(),
        ensures
            seen@ == self.sim().cars_on(on),
    {
        self.sim.cars_on(on)
    }

    /// What may be seen of every car on the road.
    pub fn get_all_draw_cars(&self) -> (seen: Vec<DrawCarInput>)
        requires
            self.wf(),
        ensures
            seen@ == self.sim().all_cars(),
    {
        self.sim.all_cars()
    }

    /// The stage of the journey of the car with the given identity.
    pub fn car_state(&self, id: CarID) -> (state: Option<CarState>)
        ensures
            state == self.sim().car_state(id),
    {
        self.sim.car_state(id)
    }

    /// How many cars wait to appear.
    pub fn num_pending(&self) -> (n: usize)
        ensures
            n == self.sim().pending.len(),
    {
        self.sim.num_pending()
    }
}

} // verus!
