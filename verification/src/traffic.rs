//! The traffic in a city as a mathematical value, and what a tick does to it.

use vstd::prelude::*;

use crate::city::{CityModel, ParamsModel, PhaseGroup, Road};
use crate::fixed::ONE;
use crate::random;
use crate::sim::{Phase, SimConfig, MAX_ROUTE_HOPS, MIN_ROUTE_HOPS, OBS_PER_INTERSECTION};

verus! {

/// A vehicle on its way.
pub struct Trip {
    /// The roads it takes, in order.
    pub route: Seq<usize>,
    /// The place in the route of the road that it queues on.
    pub route_pos: nat,
    /// How long it has waited on this road.
    pub wait_ticks: nat,
    /// Whether it has stood still since its last move.
    pub is_stopped: bool,
    /// How often it had to start again after standing still.
    pub stall_count: nat,
}

/// The vehicles in a city.
pub struct Traffic {
    /// The slots of the vehicles that queue on each road, the one that is
    /// closest to the intersection first.
    pub queues: Seq<Seq<usize>>,
    /// The slots: `None` is a free one.
    pub vehicles: Seq<Option<Trip>>,
    /// The free slots, the one that is used next last.
    pub free_slots: Seq<usize>,
    /// The number of vehicles that completed their route in this tick.
    pub completed: nat,
    /// The number of waits on each road in this tick.
    pub waits: Seq<nat>,
    /// The number of stalls on each road in this tick.
    pub stalls: Seq<nat>,
}

/// A simulation.
pub struct SimModel {
    pub city: CityModel,
    pub params: ParamsModel,
    pub config: SimConfig,
    /// The words that the generator of the simulation is going to put out.
    pub words: Map<nat, u32>,
    pub traffic: Traffic,
    pub phases: Seq<Phase>,
    pub tick: nat,
}

/// The sum of some numbers.
pub open spec fn total(counts: Seq<nat>) -> nat
    decreases counts.len(),
{
    if counts.len() == 0 {
        0
    } else {
        total(counts.drop_last()) + counts.last()
    }
}

/// The number of vehicles on the roads.
pub open spec fn queued(queues: Seq<Seq<usize>>) -> nat
    decreases queues.len(),
{
    if queues.len() == 0 {
        0
    } else {
        queued(queues.drop_last()) + queues.last().len()
    }
}

/// The number of vehicles that the roads hold at most.
pub open spec fn total_capacity(roads: Seq<Road>) -> nat
    decreases roads.len(),
{
    if roads.len() == 0 {
        0
    } else {
        total_capacity(roads.drop_last()) + roads.last().capacity as nat
    }
}

/// The number of slots in use.
pub open spec fn active(vehicles: Seq<Option<Trip>>) -> nat
    decreases vehicles.len(),
{
    if vehicles.len() == 0 {
        0
    } else {
        active(vehicles.drop_last()) + if vehicles.last() is Some {
            1nat
        } else {
            0
        }
    }
}

/// The ticks that all vehicles have waited on their present roads.
pub open spec fn total_wait_ticks(vehicles: Seq<Option<Trip>>) -> nat
    decreases vehicles.len(),
{
    if vehicles.len() == 0 {
        0
    } else {
        total_wait_ticks(vehicles.drop_last()) + match vehicles.last() {
            Some(trip) => trip.wait_ticks,
            None => 0,
        }
    }
}

/// The stalls of all vehicles.
pub open spec fn total_stalls(vehicles: Seq<Option<Trip>>) -> nat
    decreases vehicles.len(),
{
    if vehicles.len() == 0 {
        0
    } else {
        total_stalls(vehicles.drop_last()) + match vehicles.last() {
            Some(trip) => trip.stall_count,
            None => 0,
        }
    }
}

/// The vehicle in a slot in use.
pub open spec fn trip(traffic: Traffic, slot: int) -> Trip {
    traffic.vehicles[slot]->0
}

/// The road that a vehicle queues on.
pub open spec fn road_of(trip: Trip) -> usize {
    trip.route[trip.route_pos as int]
}

/// Whether a route is a path of one to `MAX_ROUTE_HOPS` roads of the city: each
/// road starts where the one before it ends.
#[verifier::opaque]
pub open spec fn is_route(city: CityModel, route: Seq<usize>) -> bool {
    &&& 1 <= route.len() <= MAX_ROUTE_HOPS
    &&& forall|j: int| 0 <= j < route.len() ==> #[trigger] route[j] < city.roads.len()
    &&& forall|i: int, j: int|
        #![trigger route[i], route[j]]
        0 <= i && i + 1 == j && j < route.len() ==> city.roads[route[i] as int].to
            == city.roads[route[j] as int].from
}

/// Whether a vehicle may be on its way in the city.
pub open spec fn is_trip(city: CityModel, trip: Trip) -> bool {
    &&& is_route(city, trip.route)
    &&& trip.route_pos < trip.route.len()
    &&& trip.stall_count <= trip.route_pos
}

impl Traffic {
    /// Each place in a queue holds the slot of a vehicle that is on that road,
    /// and no queue holds a slot twice.
    #[verifier::opaque]
    pub open spec fn queues_hold_vehicles(self, city: CityModel) -> bool {
        &&& self.queues.len() == city.roads.len()
        &&& forall|r: int, i: int|
            #![trigger self.queues[r][i]]
            0 <= r < self.queues.len() && 0 <= i < self.queues[r].len() ==> {
                &&& self.queues[r][i] < self.vehicles.len()
                &&& self.vehicles[self.queues[r][i] as int] is Some
                &&& road_of(trip(self, self.queues[r][i] as int)) == r
            }
        &&& forall|r: int|
            0 <= r < self.queues.len() ==> (#[trigger] self.queues[r]).no_duplicates()
    }

    /// Each vehicle is on its way, and in the queue of its road.
    #[verifier::opaque]
    pub open spec fn vehicles_are_queued(self, city: CityModel) -> bool {
        forall|v: int|
            #![trigger self.vehicles[v]]
            0 <= v < self.vehicles.len() && self.vehicles[v] is Some ==> {
                &&& is_trip(city, trip(self, v))
                &&& self.queues[road_of(trip(self, v)) as int].contains(v as usize)
            }
    }

    /// No road holds more vehicles than its capacity.
    pub open spec fn capacities_hold(self, city: CityModel) -> bool {
        forall|r: int|
            0 <= r < self.queues.len() ==> (#[trigger] self.queues[r]).len()
                <= city.roads[r].capacity
    }

    /// The free slots are exactly the empty ones, each listed once.
    #[verifier::opaque]
    pub open spec fn free_slots_are_free(self) -> bool {
        &&& self.free_slots.no_duplicates()
        &&& forall|i: int|
            0 <= i < self.free_slots.len() ==> (#[trigger] self.free_slots[i])
                < self.vehicles.len() && self.vehicles[self.free_slots[i] as int] is None
        &&& forall|v: int|
            #![trigger self.vehicles[v]]
            0 <= v < self.vehicles.len() && self.vehicles[v] is None ==> self.free_slots.contains(
                v as usize,
            )
    }

    /// Each slot is on a road or free, and there are no more slots than the
    /// roads can hold.
    pub open spec fn slots_are_accounted_for(self, city: CityModel) -> bool {
        &&& self.vehicles.len() == queued(self.queues) + self.free_slots.len()
        &&& active(self.vehicles) == queued(self.queues)
        &&& self.vehicles.len() <= total_capacity(city.roads)
        &&& self.vehicles.len() <= usize::MAX
    }

    /// What holds of the vehicles in a city at all times.
    pub open spec fn wf(self, city: CityModel) -> bool {
        &&& self.queues.len() == city.roads.len()
        &&& self.queues_hold_vehicles(city)
        &&& self.vehicles_are_queued(city)
        &&& self.capacities_hold(city)
        &&& self.free_slots_are_free()
        &&& self.slots_are_accounted_for(city)
        &&& self.waits.len() == city.roads.len()
        &&& self.stalls.len() == city.roads.len()
    }

    /// The counts of a tick that has run on the first `count` roads: at most
    /// one vehicle has left each of these roads, and no more have waited on it
    /// than it holds. The other roads have no counts yet.
    pub open spec fn counts_within(self, city: CityModel, count: int) -> bool {
        &&& self.completed <= count
        &&& forall|r: int|
            #![trigger self.waits[r]]
            #![trigger self.stalls[r]]
            0 <= r < city.roads.len() ==> {
                &&& self.waits[r] <= city.roads[r].capacity
                &&& self.stalls[r] <= 1
                &&& r >= count ==> self.waits[r] == 0 && self.stalls[r] == 0
            }
    }

    /// No vehicle has waited more than `limit` ticks.
    pub open spec fn waits_within(self, limit: int) -> bool {
        forall|v: int|
            #![trigger self.vehicles[v]]
            0 <= v < self.vehicles.len() && self.vehicles[v] is Some ==> trip(self, v).wait_ticks
                <= limit
    }
}

/// A vehicle that stands still for one more tick.
pub open spec fn held(trip: Trip) -> Trip {
    Trip { wait_ticks: trip.wait_ticks + 1, is_stopped: true, ..trip }
}

/// The vehicles, once those in the slots `slots` have stood still for a tick.
pub open spec fn all_held(vehicles: Seq<Option<Trip>>, slots: Seq<usize>) -> Seq<Option<Trip>> {
    Seq::new(
        vehicles.len(),
        |v: int|
            match vehicles[v] {
                Some(trip) => if slots.contains(v as usize) {
                    Some(held(trip))
                } else {
                    Some(trip)
                },
                None => None,
            },
    )
}

/// Every vehicle on road `r` stands still for a tick.
pub open spec fn hold_road(traffic: Traffic, r: int) -> Traffic {
    Traffic {
        vehicles: all_held(traffic.vehicles, traffic.queues[r]),
        waits: traffic.waits.update(r, traffic.waits[r] + traffic.queues[r].len()),
        ..traffic
    }
}

/// Whether the signal lets the vehicles of a phase group through.
pub open spec fn green(phase: Phase, group: PhaseGroup) -> bool {
    match phase {
        Phase::NorthSouthGreen => group == PhaseGroup::NorthSouth,
        Phase::EastWestGreen => group == PhaseGroup::EastWest,
    }
}

/// Whether a vehicle is on the last road of its route.
pub open spec fn on_last_road(trip: Trip) -> bool {
    trip.route_pos + 1 >= trip.route.len()
}

/// The road that a vehicle takes next.
pub open spec fn next_road(trip: Trip) -> usize {
    trip.route[trip.route_pos as int + 1]
}

/// Whether the first vehicle on road `r` can move on: there is one, and it
/// leaves the city or its next road has room.
pub open spec fn can_advance(traffic: Traffic, city: CityModel, r: int) -> bool {
    traffic.queues[r].len() > 0 && {
        let first = trip(traffic, traffic.queues[r][0] as int);
        on_last_road(first) || traffic.queues[next_road(first) as int].len()
            < city.roads[next_road(first) as int].capacity
    }
}

/// 1 for a vehicle that has to start again, 0 for one that did not stop.
pub open spec fn stall(trip: Trip) -> nat {
    if trip.is_stopped {
        1
    } else {
        0
    }
}

/// A vehicle on the next road of its route.
pub open spec fn moved(trip: Trip) -> Trip {
    Trip {
        route: trip.route,
        route_pos: trip.route_pos + 1,
        wait_ticks: 0,
        is_stopped: false,
        stall_count: trip.stall_count + stall(trip),
    }
}

/// The first vehicle on road `r` moves on: to the end of the queue of its next
/// road, or out of the city, which frees its slot.
pub open spec fn advance(traffic: Traffic, r: int) -> Traffic {
    let slot = traffic.queues[r][0];
    let first = trip(traffic, slot as int);
    let left = traffic.queues.update(
        r,
        traffic.queues[r].subrange(1, traffic.queues[r].len() as int),
    );
    let stalls = traffic.stalls.update(r, traffic.stalls[r] + stall(first));
    if on_last_road(first) {
        Traffic {
            queues: left,
            vehicles: traffic.vehicles.update(slot as int, None),
            free_slots: traffic.free_slots.push(slot),
            completed: traffic.completed + 1,
            stalls,
            ..traffic
        }
    } else {
        let next = next_road(first) as int;
        Traffic {
            queues: left.update(next, left[next].push(slot)),
            vehicles: traffic.vehicles.update(slot as int, Some(moved(first))),
            stalls,
            ..traffic
        }
    }
}

/// One tick on road `r`: on a green signal the first vehicle moves on if it
/// can; the vehicles that are then on the road stand still.
pub open spec fn process_road(
    traffic: Traffic,
    city: CityModel,
    phases: Seq<Phase>,
    r: int,
) -> Traffic {
    let road = city.roads[r];
    if green(phases[road.to as int], road.phase_group) && can_advance(traffic, city, r) {
        hold_road(advance(traffic, r), r)
    } else {
        hold_road(traffic, r)
    }
}

/// One tick on the first `count` roads, one after the other.
pub open spec fn process_roads(
    traffic: Traffic,
    city: CityModel,
    phases: Seq<Phase>,
    count: int,
) -> Traffic
    decreases count,
{
    if count <= 0 {
        traffic
    } else {
        process_road(process_roads(traffic, city, phases, count - 1), city, phases, count - 1)
    }
}

/// Whether a road does not lead straight back to where the road `last` starts.
pub open spec fn leads_on(city: CityModel, last: usize) -> spec_fn(usize) -> bool {
    |r: usize| city.roads[r as int].to != city.roads[last as int].from
}

/// The roads that a vehicle may take after the road `last`: those that do not
/// lead straight back, or all of them where there is no other.
pub open spec fn choices(city: CityModel, last: usize) -> Seq<usize> {
    let out = city.intersections[city.roads[last as int].to as int].outgoing;
    let onward = out.filter(leads_on(city, last));
    if onward.len() == 0 {
        out
    } else {
        onward
    }
}

/// A route that goes on for up to `hops` more roads, and the words left. It
/// ends early at an intersection without a way out.
pub open spec fn extended_route(
    words: Map<nat, u32>,
    city: CityModel,
    route: Seq<usize>,
    hops: int,
) -> (Seq<usize>, Map<nat, u32>)
    decreases hops,
{
    if hops <= 0 {
        (route, words)
    } else {
        let pool = choices(city, route.last());
        if pool.len() == 0 {
            (route, words)
        } else {
            let pick = random::between(words, 0, pool.len() - 1);
            extended_route(
                random::after_between(words, 0, pool.len() - 1),
                city,
                route.push(pool[pick]),
                hops - 1,
            )
        }
    }
}

/// The route that the words give a vehicle that starts on road `start`, and
/// the words left. Its length is drawn first.
pub open spec fn drawn_route(words: Map<nat, u32>, city: CityModel, start: int) -> (
    Seq<usize>,
    Map<nat, u32>,
) {
    let hops = random::between(words, MIN_ROUTE_HOPS as int, MAX_ROUTE_HOPS as int);
    extended_route(
        random::after_between(words, MIN_ROUTE_HOPS as int, MAX_ROUTE_HOPS as int),
        city,
        seq![start as usize],
        hops - 1,
    )
}

/// A vehicle at the start of its route.
pub open spec fn fresh(route: Seq<usize>) -> Trip {
    Trip { route, route_pos: 0, wait_ticks: 0, is_stopped: false, stall_count: 0 }
}

/// The slot that the next new vehicle gets.
pub open spec fn next_slot(traffic: Traffic) -> usize {
    if traffic.free_slots.len() > 0 {
        traffic.free_slots.last()
    } else {
        traffic.vehicles.len() as usize
    }
}

/// The traffic with one more vehicle, which is not on a road yet. It gets a
/// free slot, or a new one where none is free.
pub open spec fn allocated(traffic: Traffic, trip: Trip) -> Traffic {
    if traffic.free_slots.len() > 0 {
        Traffic {
            vehicles: traffic.vehicles.update(traffic.free_slots.last() as int, Some(trip)),
            free_slots: traffic.free_slots.drop_last(),
            ..traffic
        }
    } else {
        Traffic { vehicles: traffic.vehicles.push(Some(trip)), ..traffic }
    }
}

/// The traffic with a vehicle gone, and its slot free.
pub open spec fn freed(traffic: Traffic, slot: usize) -> Traffic {
    Traffic {
        vehicles: traffic.vehicles.update(slot as int, None),
        free_slots: traffic.free_slots.push(slot),
        ..traffic
    }
}

/// The traffic with a new vehicle at the end of the queue of road `r`.
pub open spec fn entered(traffic: Traffic, r: int, route: Seq<usize>) -> Traffic {
    let slot = next_slot(traffic);
    let with_vehicle = allocated(traffic, fresh(route));
    Traffic {
        queues: with_vehicle.queues.update(r, with_vehicle.queues[r].push(slot)),
        ..with_vehicle
    }
}

/// The probability that a vehicle enters on a road in a tick.
pub open spec fn spawn_chance(road: Road, config: SimConfig) -> int {
    road.base_intensity * config.spawn_scale / ONE as int
}

/// A new vehicle enters on road `r`, where the road has room and a draw asks
/// for it.
pub open spec fn spawn_on_road(
    traffic: Traffic,
    words: Map<nat, u32>,
    city: CityModel,
    config: SimConfig,
    r: int,
) -> (Traffic, Map<nat, u32>) {
    if traffic.queues[r].len() >= city.roads[r].capacity {
        (traffic, words)
    } else {
        let chance = spawn_chance(city.roads[r], config);
        let rest = random::after_chance(words, chance);
        if random::hits(words, chance) {
            let (route, rest) = drawn_route(rest, city, r);
            (entered(traffic, r, route), rest)
        } else {
            (traffic, rest)
        }
    }
}

/// New vehicles enter on the first `count` roads.
pub open spec fn spawn_on_roads(
    traffic: Traffic,
    words: Map<nat, u32>,
    city: CityModel,
    config: SimConfig,
    count: int,
) -> (Traffic, Map<nat, u32>)
    decreases count,
{
    if count <= 0 {
        (traffic, words)
    } else {
        let (before, rest) = spawn_on_roads(traffic, words, city, config, count - 1);
        spawn_on_road(before, rest, city, config, count - 1)
    }
}

/// The traffic at the start of a tick: the counts of the tick are zero.
pub open spec fn new_tick(traffic: Traffic) -> Traffic {
    Traffic {
        completed: 0,
        waits: Seq::new(traffic.waits.len(), |r: int| 0nat),
        stalls: Seq::new(traffic.stalls.len(), |r: int| 0nat),
        ..traffic
    }
}

/// The phase that an action stands for: 0 is north-south green, anything else
/// east-west green.
pub open spec fn phase_of(action: u8) -> Phase {
    if action == 0 {
        Phase::NorthSouthGreen
    } else {
        Phase::EastWestGreen
    }
}

/// The phases that the actions stand for.
pub open spec fn phases_of(actions: Seq<u8>) -> Seq<Phase> {
    actions.map_values(|a: u8| phase_of(a))
}

/// An empty city.
pub open spec fn no_traffic(roads: nat) -> Traffic {
    Traffic {
        queues: Seq::new(roads, |r: int| Seq::empty()),
        vehicles: Seq::empty(),
        free_slots: Seq::empty(),
        completed: 0,
        waits: Seq::new(roads, |r: int| 0nat),
        stalls: Seq::new(roads, |r: int| 0nat),
    }
}

/// The vehicles that wait in this tick, all roads together.
pub open spec fn waits_this_tick(traffic: Traffic) -> nat {
    total(traffic.waits)
}

/// The stalls in this tick, all roads together.
pub open spec fn stalls_this_tick(traffic: Traffic) -> nat {
    total(traffic.stalls)
}

/// The reward, in parts of `ONE`, for a number of waits and stalls.
pub open spec fn reward_of(waits: nat, stalls: nat, config: SimConfig) -> int {
    -(waits * ONE + stalls * config.stall_penalty)
}

/// The ticks that the vehicles in a queue have waited.
pub open spec fn queue_wait(traffic: Traffic, queue: Seq<usize>) -> nat
    decreases queue.len(),
{
    if queue.len() == 0 {
        0
    } else {
        queue_wait(traffic, queue.drop_last()) + trip(traffic, queue.last() as int).wait_ticks
    }
}

/// The vehicles on those of the roads `list` that are in the group `group`.
pub open spec fn approach_queue(
    model: SimModel,
    list: Seq<usize>,
    group: PhaseGroup,
) -> nat
    decreases list.len(),
{
    if list.len() == 0 {
        0
    } else {
        let r = list.last() as int;
        approach_queue(model, list.drop_last(), group) + if model.city.roads[r].phase_group
            == group {
            model.traffic.queues[r].len()
        } else {
            0
        }
    }
}

/// The ticks that the vehicles on those of the roads `list` that are in the
/// group `group` have waited.
pub open spec fn approach_wait(model: SimModel, list: Seq<usize>, group: PhaseGroup) -> nat
    decreases list.len(),
{
    if list.len() == 0 {
        0
    } else {
        let r = list.last() as int;
        approach_wait(model, list.drop_last(), group) + if model.city.roads[r].phase_group
            == group {
            queue_wait(model.traffic, model.traffic.queues[r])
        } else {
            0
        }
    }
}

/// The sum of the intensities of the roads `list`.
pub open spec fn intensity_sum(city: CityModel, list: Seq<usize>) -> nat
    decreases list.len(),
{
    if list.len() == 0 {
        0
    } else {
        intensity_sum(city, list.drop_last()) + city.roads[list.last() as int].base_intensity as nat
    }
}

/// The mean intensity of the roads `list`, 0 for none.
pub open spec fn mean_intensity(city: CityModel, list: Seq<usize>) -> nat {
    if list.len() == 0 {
        0
    } else {
        intensity_sum(city, list) / list.len()
    }
}

/// Field `field` of what is observed at intersection `i`: the vehicles and the
/// waits on its north-south and east-west approaches, its phase, and the mean
/// intensity of its approaches.
pub open spec fn observed(model: SimModel, i: int, field: int) -> nat {
    let list = model.city.intersections[i].incoming;
    if field == 0 {
        approach_queue(model, list, PhaseGroup::NorthSouth)
    } else if field == 1 {
        approach_queue(model, list, PhaseGroup::EastWest)
    } else if field == 2 {
        approach_wait(model, list, PhaseGroup::NorthSouth)
    } else if field == 3 {
        approach_wait(model, list, PhaseGroup::EastWest)
    } else if field == 4 {
        match model.phases[i] {
            Phase::NorthSouthGreen => 0,
            Phase::EastWestGreen => 1,
        }
    } else {
        mean_intensity(model.city, list)
    }
}

/// What is observed, intersection by intersection.
pub open spec fn observation(model: SimModel) -> Seq<nat> {
    Seq::new(
        model.city.intersections.len() * OBS_PER_INTERSECTION as nat,
        |k: int| observed(model, k / OBS_PER_INTERSECTION as int, k % OBS_PER_INTERSECTION as int),
    )
}

/// The sum of the counts of the roads `list`.
pub open spec fn total_over(counts: Seq<nat>, list: Seq<usize>) -> nat
    decreases list.len(),
{
    if list.len() == 0 {
        0
    } else {
        total_over(counts, list.drop_last()) + counts[list.last() as int]
    }
}

/// The reward, in parts of `ONE`, of intersection `i`: that for the waits and
/// stalls on the roads that lead to it.
pub open spec fn local_reward(model: SimModel, i: int) -> int {
    let list = model.city.intersections[i].incoming;
    reward_of(
        total_over(model.traffic.waits, list),
        total_over(model.traffic.stalls, list),
        model.config,
    )
}

impl SimModel {
    /// What holds of a simulation at all times.
    pub open spec fn wf(self) -> bool {
        &&& self.city.wf()
        &&& self.params.valid()
        &&& self.config.valid()
        &&& self.traffic.wf(self.city)
        &&& self.traffic.counts_within(self.city, self.city.roads.len() as int)
        &&& self.traffic.waits_within(self.tick as int)
        &&& self.traffic.waits_within(u32::MAX as int)
        &&& self.phases.len() == self.city.intersections.len()
    }

    /// A tick can be counted: no counter of the simulation is at its limit.
    pub open spec fn can_tick(self) -> bool {
        &&& self.tick < u64::MAX
        &&& self.traffic.waits_within(u32::MAX - 1)
    }

    /// The vehicles once they have moved under the actions.
    pub open spec fn after_moves(self, actions: Seq<u8>) -> Traffic {
        process_roads(
            new_tick(self.traffic),
            self.city,
            phases_of(actions),
            self.city.roads.len() as int,
        )
    }

    /// The simulation after a tick under the actions: the signals switch, the
    /// vehicles move, and new vehicles enter.
    pub open spec fn after_step(self, actions: Seq<u8>) -> SimModel {
        let (traffic, words) = spawn_on_roads(
            self.after_moves(actions),
            self.words,
            self.city,
            self.config,
            self.city.roads.len() as int,
        );
        SimModel { traffic, words, phases: phases_of(actions), tick: self.tick + 1, ..self }
    }

    /// The reward for the last tick, in parts of `ONE`.
    pub open spec fn reward(self) -> int {
        reward_of(waits_this_tick(self.traffic), stalls_this_tick(self.traffic), self.config)
    }

    /// Whether the simulation has run its course.
    pub open spec fn done(self) -> bool {
        self.tick >= self.config.max_ticks
    }
}

/// The seed of the generator that drives a simulation, by the seed of its city.
pub open spec fn traffic_seed(seed: u64) -> u64 {
    seed ^ 0x9e37_79b9_7f4a_7c15
}

/// The simulation of a seed before its first tick.
pub open spec fn start(seed: u64, params: ParamsModel, config: SimConfig) -> SimModel {
    let city = crate::plan::city(seed, params);
    SimModel {
        city,
        params,
        config,
        words: random::seeded(traffic_seed(seed)),
        traffic: no_traffic(city.roads.len()),
        phases: Seq::new(city.intersections.len(), |i: int| Phase::NorthSouthGreen),
        tick: 0,
    }
}

} // verus!
