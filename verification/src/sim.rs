//! Tick-based traffic simulation.
//!
//! `Simulation::reset` starts a city over, `Simulation::step` runs one tick
//! under a signal phase for each intersection. Vehicles queue on roads; in a
//! tick the first vehicle on a road crosses the intersection if its signal is
//! green and its next road has room.

use rand::rngs::StdRng;
use std::collections::VecDeque;
use vstd::prelude::*;

use crate::city::{generate_city, City, CityGenParams, PhaseGroup, Road};
use crate::city_laws;
use crate::fixed::{MAX_PENALTY, MAX_SCALE, ONE};
use crate::plan;
use crate::random;
use crate::random::{draw_between, draw_chance, seed_rng};
use crate::traffic;
use crate::traffic::{SimModel, Traffic, Trip};
use crate::traffic_laws;

verus! {

/// The number of fields that are observed per intersection: the queue lengths
/// north-south and east-west, the waits north-south and east-west, the phase,
/// and the local intensity. It does not depend on the city, so that one policy
/// can serve cities of any shape.
pub const OBS_PER_INTERSECTION: usize = 6;

pub const MIN_ROUTE_HOPS: usize = 3;

pub const MAX_ROUTE_HOPS: usize = 8;

/// What shapes the dynamics and the reward, apart from the city.
#[derive(Debug, Clone, Copy)]
pub struct SimConfig {
    pub max_ticks: u64,
    /// How often vehicles enter, per tick and per unit of a road's intensity,
    /// in parts of `CERTAIN`.
    pub spawn_scale: u128,
    /// The weight of a stall against a plain wait in the reward, in parts of
    /// `ONE`. It does not affect how vehicles move.
    pub stall_penalty: i64,
}

impl SimConfig {
    /// The spawn scale and the penalty fit the machine's integers.
    pub open spec fn valid(self) -> bool {
        &&& self.spawn_scale <= MAX_SCALE
        &&& -MAX_PENALTY <= self.stall_penalty <= MAX_PENALTY
    }
}

impl Default for SimConfig {
    fn default() -> (config: Self)
        ensures
            config == (SimConfig {
                max_ticks: 2000,
                spawn_scale: 0xf5c_28f5_c28f_5c00,
                stall_penalty: 0x3_0000_0000,
            }),
    {
        SimConfig {
            max_ticks: 2000,
            // 0.06
            spawn_scale: 0xf5c_28f5_c28f_5c00,
            // 3
            stall_penalty: 0x3_0000_0000,
        }
    }
}

#[derive(Debug, Clone, Copy, PartialEq, Eq, Structural)]
pub enum Phase {
    NorthSouthGreen,
    EastWestGreen,
}

impl Phase {
    /// The phase that an action stands for.
    pub fn from_action(a: u8) -> (phase: Self)
        ensures
            phase == traffic::phase_of(a),
    {
        if a == 0 {
            Phase::NorthSouthGreen
        } else {
            Phase::EastWestGreen
        }
    }

    /// Whether the vehicles of a phase group may cross.
    pub fn allows(&self, group: PhaseGroup) -> (green: bool)
        ensures
            green == traffic::green(*self, group),
    {
        match (*self, group) {
            (Phase::NorthSouthGreen, PhaseGroup::NorthSouth) => true,
            (Phase::EastWestGreen, PhaseGroup::EastWest) => true,
            _ => false,
        }
    }
}

/// A vehicle on its way.
pub struct Vehicle {
    /// The roads it takes, in order.
    pub route: Vec<usize>,
    /// The place in the route of the road that it queues on.
    pub route_pos: usize,
    pub wait_ticks: u32,
    /// Whether it has stood still since its last move.
    pub is_stopped: bool,
    pub stall_count: u32,
}

impl View for Vehicle {
    type V = Trip;

    open spec fn view(&self) -> Trip {
        Trip {
            route: self.route@,
            route_pos: self.route_pos as nat,
            wait_ticks: self.wait_ticks as nat,
            is_stopped: self.is_stopped,
            stall_count: self.stall_count as nat,
        }
    }
}

/// The vehicle in a slot, as a mathematical value.
spec fn slot_view(slot: Option<Vehicle>) -> Option<Trip> {
    match slot {
        Some(vehicle) => Some(vehicle@),
        None => None,
    }
}

/// The numbers of an observation, without their machine type.
pub open spec fn as_nats(fields: Seq<u128>) -> Seq<nat> {
    fields.map_values(|f: u128| f as nat)
}

/// What a tick counted, and what the vehicles in the network add up to.
#[derive(Debug, Clone, Copy, Default)]
pub struct TickMetrics {
    pub active_vehicles: usize,
    pub completed_vehicles: usize,
    pub total_wait_ticks: u64,
    pub stall_events: u32,
}

/// A city with vehicles on its roads.
pub struct Simulation {
    pub city: City,
    params: CityGenParams,
    config: SimConfig,
    rng: StdRng,
    /// The slots of the vehicles on each road; the front is closest to the
    /// intersection that the road leads to.
    queues: Vec<VecDeque<usize>>,
    /// The slots of the vehicles. A vehicle that is done leaves its slot free,
    /// so that the slots of the others, which the queues refer to, stay.
    vehicles: Vec<Option<Vehicle>>,
    free_slots: Vec<usize>,
    phases: Vec<Phase>,
    tick: u64,
    completed_this_tick: usize,
    /// The waits of this tick by road.
    road_waits: Vec<u64>,
    /// The stalls of this tick by road.
    road_stalls: Vec<u32>,
}

impl View for Simulation {
    type V = SimModel;

    closed spec fn view(&self) -> SimModel {
        SimModel {
            city: self.city@,
            params: self.params@,
            config: self.config,
            words: random::upcoming(self.rng),
            traffic: Traffic {
                queues: self.queues@.map_values(|q: VecDeque<usize>| q@),
                vehicles: self.vehicles@.map_values(|v: Option<Vehicle>| slot_view(v)),
                free_slots: self.free_slots@,
                completed: self.completed_this_tick as nat,
                waits: self.road_waits@.map_values(|w: u64| w as nat),
                stalls: self.road_stalls@.map_values(|w: u32| w as nat),
            },
            phases: self.phases@,
            tick: self.tick as nat,
        }
    }
}

/// A simulation is seen as it is: road by road, slot by slot and signal by signal.
proof fn law_a_simulation_is_seen_as_it_is(sim: Simulation, i: int)
    ensures
        sim@.city == sim.city@,
        sim@.params == sim.params@,
        sim@.config == sim.config,
        sim@.words == random::upcoming(sim.rng),
        sim@.phases == sim.phases@,
        sim@.tick == sim.tick,
        sim@.traffic.completed == sim.completed_this_tick,
        sim@.traffic.free_slots == sim.free_slots@,
        sim@.traffic.queues.len() == sim.queues@.len(),
        0 <= i < sim.queues@.len() ==> sim@.traffic.queues[i] == sim.queues@[i]@,
        sim@.traffic.waits.len() == sim.road_waits@.len(),
        0 <= i < sim.road_waits@.len() ==> sim@.traffic.waits[i] == sim.road_waits@[i],
        sim@.traffic.stalls.len() == sim.road_stalls@.len(),
        0 <= i < sim.road_stalls@.len() ==> sim@.traffic.stalls[i] == sim.road_stalls@[i],
        sim@.traffic.vehicles.len() == sim.vehicles@.len(),
        0 <= i < sim.vehicles@.len() ==> match sim.vehicles@[i] {
            Some(v) => sim@.traffic.vehicles[i] == Some(
                Trip {
                    route: v.route@,
                    route_pos: v.route_pos as nat,
                    wait_ticks: v.wait_ticks as nat,
                    is_stopped: v.is_stopped,
                    stall_count: v.stall_count as nat,
                },
            ),
            None => sim@.traffic.vehicles[i] is None,
        },
{
}

impl Simulation {
    /// What holds of a simulation at all times.
    pub open spec fn wf(&self) -> bool {
        self@.wf()
    }

    /// Starts a simulation in the city of a seed.
    pub fn new(seed: u64, params: CityGenParams, config: SimConfig) -> (sim: Self)
        requires
            params@.valid(),
            config.valid(),
        ensures
            sim@ == traffic::start(seed, params@, config),
            sim.wf(),
    {
        let city: City = generate_city(seed, &params);
        let n_roads: usize = city.roads.len();
        let n_intersections: usize = city.intersections.len();
        let mut queues: Vec<VecDeque<usize>> = Vec::new();
        let mut road_waits: Vec<u64> = Vec::new();
        let mut road_stalls: Vec<u32> = Vec::new();
        for r in 0..n_roads
            invariant
                queues@.len() == r,
                road_waits@.len() == r,
                road_stalls@.len() == r,
                forall|i: int| 0 <= i < r ==> (#[trigger] queues@[i])@ == Seq::<usize>::empty(),
                forall|i: int| 0 <= i < r ==> #[trigger] road_waits@[i] == 0,
                forall|i: int| 0 <= i < r ==> #[trigger] road_stalls@[i] == 0,
        {
            queues.push(VecDeque::new());
            road_waits.push(0);
            road_stalls.push(0);
        }
        let mut phases: Vec<Phase> = Vec::new();
        for i in 0..n_intersections
            invariant
                phases@.len() == i,
                forall|k: int| 0 <= k < i ==> #[trigger] phases@[k] == Phase::NorthSouthGreen,
        {
            phases.push(Phase::NorthSouthGreen);
        }
        let sim = Simulation {
            rng: seed_rng(seed ^ 0x9e37_79b9_7f4a_7c15),
            queues,
            vehicles: Vec::new(),
            free_slots: Vec::new(),
            phases,
            tick: 0,
            completed_this_tick: 0,
            road_waits,
            road_stalls,
            city,
            params,
            config,
        };
        proof {
            let model = traffic::start(seed, params@, config);
            assert(sim@.city == city@);
            assert(sim@.traffic.queues =~= model.traffic.queues);
            assert(sim@.traffic.vehicles =~= model.traffic.vehicles);
            assert(sim@.traffic.free_slots =~= model.traffic.free_slots);
            assert(sim@.traffic.waits =~= model.traffic.waits);
            assert(sim@.traffic.stalls =~= model.traffic.stalls);
            assert(sim@.phases =~= model.phases);
            traffic_laws::lemma_no_traffic(city@);
        }
        sim
    }

    /// The city.
    pub fn city(&self) -> (city: &City)
        ensures
            city@ == self@.city,
    {
        &self.city
    }

    /// The number of intersections: as many actions does a tick take.
    pub fn num_intersections(&self) -> (count: usize)
        ensures
            count == self@.city.intersections.len(),
    {
        assert(self.city.intersections@.len() == self@.city.intersections.len());
        self.city.intersections.len()
    }

    /// The number of roads.
    pub fn num_roads(&self) -> (count: usize)
        ensures
            count == self@.city.roads.len(),
    {
        self.city.roads.len()
    }

    /// The number of vehicle slots, free ones included.
    pub fn num_slots(&self) -> (count: usize)
        ensures
            count == self@.traffic.vehicles.len(),
    {
        assert(self.vehicles@.len() == self@.traffic.vehicles.len());
        self.vehicles.len()
    }

    /// The vehicles on a road stand still for a tick.
    fn accumulate_wait(&mut self, road_idx: usize)
        requires
            old(self)@.traffic.wf(old(self)@.city),
            road_idx < old(self)@.city.roads.len(),
            old(self)@.traffic.waits[road_idx as int] == 0,
            traffic_laws::waits_staged(old(self)@.traffic, u32::MAX - 1, road_idx as int),
        ensures
            final(self)@ == (SimModel {
                traffic: traffic::hold_road(old(self)@.traffic, road_idx as int),
                ..old(self)@
            }),
    {
        let ghost before = self@;
        let ghost queue = before.traffic.queues[road_idx as int];
        let count: usize = self.queues[road_idx].len();
        proof {
            traffic_laws::lemma_all_held_none(before.traffic.vehicles, queue);
            traffic_laws::lemma_queue_unique(before.traffic, before.city, road_idx as int);
        }
        for k in 0..count
            invariant
                before.traffic.wf(before.city),
                road_idx < before.city.roads.len(),
                queue == before.traffic.queues[road_idx as int],
                queue.no_duplicates(),
                count == queue.len(),
                traffic_laws::waits_staged(before.traffic, u32::MAX - 1, road_idx as int),
                self@ == (SimModel {
                    traffic: Traffic {
                        vehicles: traffic::all_held(
                            before.traffic.vehicles,
                            queue.take(k as int),
                        ),
                        ..before.traffic
                    },
                    ..before
                }),
        {
            let slot: usize = self.queues[road_idx][k];
            let ghost vehicles = self@.traffic.vehicles;
            proof {
                traffic_laws::lemma_queue_entry(
                    before.traffic,
                    before.city,
                    road_idx as int,
                    k as int,
                );
                traffic_laws::lemma_all_held_step(before.traffic.vehicles, queue, k as int);
                assert(before.traffic.vehicles[slot as int] is Some);
                assert(self.vehicles@.len() == vehicles.len());
                assert(slot_view(self.vehicles@[slot as int]) == vehicles[slot as int]);
            }
            match &mut self.vehicles[slot] {
                Some(v) => {
                    v.wait_ticks += 1;
                    v.is_stopped = true;
                },
                None => {},
            }
            assert(self@.traffic.vehicles =~= vehicles.update(
                slot as int,
                Some(traffic::held(before.traffic.vehicles[slot as int]->0)),
            ));
        }
        self.road_waits[road_idx] = self.road_waits[road_idx] + count as u64;
        proof {
            assert(queue.take(count as int) =~= queue);
            assert(self@.traffic.waits =~= before.traffic.waits.update(
                road_idx as int,
                queue.len(),
            ));
        }
    }

    /// The first vehicle on a road moves on, if there is one that can.
    fn advance_first(&mut self, road_idx: usize)
        requires
            old(self)@.city.wf(),
            old(self)@.traffic.wf(old(self)@.city),
            road_idx < old(self)@.city.roads.len(),
            old(self)@.traffic.stalls[road_idx as int] == 0,
            old(self)@.traffic.completed <= road_idx,
        ensures
            final(self)@ == (SimModel {
                traffic: if traffic::can_advance(
                    old(self)@.traffic,
                    old(self)@.city,
                    road_idx as int,
                ) {
                    traffic::advance(old(self)@.traffic, road_idx as int)
                } else {
                    old(self)@.traffic
                },
                ..old(self)@
            }),
    {
        let ghost before = self@;
        let ghost r = road_idx as int;
        assert(before.traffic.queues[r] == self.queues@[r]@);
        if self.queues[road_idx].len() == 0 {
            return;
        }
        let slot: usize = self.queues[road_idx][0];
        proof {
            traffic_laws::lemma_queue_entry(before.traffic, before.city, r, 0);
            traffic_laws::lemma_next_road(
                before.city,
                traffic::trip(before.traffic, slot as int),
            );
            assert(self.vehicles@.len() == before.traffic.vehicles.len());
            assert(slot_view(self.vehicles@[slot as int])
                == before.traffic.vehicles[slot as int]);
        }
        let ghost first = traffic::trip(before.traffic, slot as int);
        let (is_last_hop, was_stopped, next_road): (bool, bool, usize) =
            match &self.vehicles[slot] {
            Some(v) => {
                let last: bool = v.route_pos + 1 >= v.route.len();
                (last, v.is_stopped, if last {
                    0
                } else {
                    v.route[v.route_pos + 1]
                })
            },
            None => (true, false, 0),
        };
        assert(is_last_hop == traffic::on_last_road(first));
        assert(!is_last_hop ==> next_road == traffic::next_road(first));
        if !is_last_hop {
            assert(before.traffic.queues[next_road as int] == self.queues@[next_road as int]@);
            if self.queues[next_road].len() >= self.city.roads[next_road].capacity {
                return;
            }
        }
        let _ = self.queues[road_idx].pop_front();
        let ghost left = before.traffic.queues.update(
            r,
            before.traffic.queues[r].subrange(1, before.traffic.queues[r].len() as int),
        );
        assert(self@.traffic.queues =~= left);
        if was_stopped {
            self.road_stalls[road_idx] = 1;
        }
        assert(self@.traffic.stalls =~= before.traffic.stalls.update(r, traffic::stall(first)));
        if is_last_hop {
            self.completed_this_tick = self.completed_this_tick + 1;
            self.free_vehicle(slot);
        } else {
            match &mut self.vehicles[slot] {
                Some(v) => {
                    v.is_stopped = false;
                    v.wait_ticks = 0;
                    if was_stopped {
                        v.stall_count = v.stall_count + 1;
                    }
                    v.route_pos = v.route_pos + 1;
                },
                None => {},
            }
            assert(self@.traffic.vehicles =~= before.traffic.vehicles.update(
                slot as int,
                Some(traffic::moved(first)),
            ));
            assert(self.queues@.len() == left.len());
            self.queues[next_road].push_back(slot);
            assert(self@.traffic.queues =~= left.update(
                next_road as int,
                left[next_road as int].push(slot),
            ));
        }
    }

    /// Runs one tick on a road.
    fn process_road(&mut self, road_idx: usize)
        requires
            old(self)@.city.wf(),
            old(self)@.traffic.wf(old(self)@.city),
            old(self)@.phases.len() == old(self)@.city.intersections.len(),
            road_idx < old(self)@.city.roads.len(),
            old(self)@.traffic.waits[road_idx as int] == 0,
            old(self)@.traffic.stalls[road_idx as int] == 0,
            old(self)@.traffic.completed <= road_idx,
            traffic_laws::waits_staged(old(self)@.traffic, u32::MAX - 1, road_idx as int),
        ensures
            final(self)@ == (SimModel {
                traffic: traffic::process_road(
                    old(self)@.traffic,
                    old(self)@.city,
                    old(self)@.phases,
                    road_idx as int,
                ),
                ..old(self)@
            }),
    {
        let ghost before = self@;
        let ghost r = road_idx as int;
        proof {
            assert(plan::sound_road(before.city.roads[r], r, before.city.sites()));
        }
        let to_intersection: usize = self.city.roads[road_idx].to;
        let group: PhaseGroup = self.city.roads[road_idx].phase_group;
        let phase: Phase = self.phases[to_intersection];
        if phase.allows(group) {
            self.advance_first(road_idx);
            proof {
                if traffic::can_advance(before.traffic, before.city, r) {
                    traffic_laws::lemma_advance(before.traffic, before.city, r);
                    traffic_laws::lemma_advance_waits(
                        before.traffic,
                        before.city,
                        r,
                        u32::MAX - 1,
                    );
                }
            }
        }
        self.accumulate_wait(road_idx);
    }

    /// Puts a vehicle into a free slot, or into a new one where none is free. It
    /// is not on a road yet.
    pub fn alloc_vehicle(&mut self, v: Vehicle) -> (slot: usize)
        requires
            old(self)@.traffic.free_slots_are_free(),
        ensures
            final(self)@ == (SimModel {
                traffic: traffic::allocated(old(self)@.traffic, v@),
                ..old(self)@
            }),
            final(self)@.traffic.free_slots_are_free(),
            slot == traffic::next_slot(old(self)@.traffic),
            old(self)@.traffic.vehicles.len() < usize::MAX
                || old(self)@.traffic.free_slots.len() > 0,
    {
        let ghost before = self@.traffic;
        proof {
            assert(self.vehicles.len() <= usize::MAX);
            assert(self.vehicles@.len() == before.vehicles.len());
            traffic_laws::lemma_allocated_free(before, v@);
        }
        match self.free_slots.pop() {
            Some(idx) => {
                proof {
                    traffic_laws::lemma_next_slot(before);
                    assert(self.vehicles@.len() == before.vehicles.len());
                }
                self.vehicles[idx] = Some(v);
                assert(self@.traffic.vehicles =~= before.vehicles.update(idx as int, Some(v@)));
                idx
            },
            None => {
                self.vehicles.push(Some(v));
                assert(self.vehicles.len() <= usize::MAX);
                assert(self@.traffic.vehicles =~= before.vehicles.push(Some(v@)));
                self.vehicles.len() - 1
            },
        }
    }

    /// Takes a vehicle out of its slot. It is off the roads already.
    pub fn free_vehicle(&mut self, idx: usize)
        requires
            idx < old(self)@.traffic.vehicles.len(),
        ensures
            final(self)@ == (SimModel {
                traffic: traffic::freed(old(self)@.traffic, idx),
                ..old(self)@
            }),
            old(self)@.traffic.free_slots_are_free() && old(self)@.traffic.vehicles[idx as int]
                is Some ==> final(self)@.traffic.free_slots_are_free(),
    {
        let ghost before = self@.traffic;
        proof {
            if before.free_slots_are_free() && before.vehicles[idx as int] is Some {
                traffic_laws::lemma_complete_free(before, idx);
            }
        }
        assert(self.vehicles@.len() == before.vehicles.len());
        self.vehicles[idx] = None;
        self.free_slots.push(idx);
        assert(self@.traffic.vehicles =~= before.vehicles.update(idx as int, None));
    }

    /// The roads that a vehicle may take after the road `last`.
    pub fn route_choices(city: &City, last: usize) -> (pool: Vec<usize>)
        requires
            city@.wf(),
            last < city@.roads.len(),
        ensures
            pool@ == traffic::choices(city@, last),
    {
        let node: usize = city.roads[last].to;
        let back: usize = city.roads[last].from;
        proof {
            assert(plan::sound_road(city@.roads[last as int], last as int, city@.sites()));
            city_laws::law_lists_hold_exactly_the_roads(city@, node as int);
            assert(city@.intersections[node as int] == city.intersections@[node as int]@);
        }
        let ghost out = city@.intersections[node as int].outgoing;
        let ghost pred = traffic::leads_on(city@, last);
        let count: usize = city.intersections[node].outgoing.len();
        let mut all: Vec<usize> = Vec::new();
        let mut onward: Vec<usize> = Vec::new();
        for k in 0..count
            invariant
                city@.wf(),
                last < city@.roads.len(),
                node < city.intersections@.len(),
                out == city.intersections@[node as int].outgoing@,
                count == out.len(),
                back == city@.roads[last as int].from,
                pred == traffic::leads_on(city@, last),
                forall|i: int| 0 <= i < out.len() ==> #[trigger] out.contains(out[i]),
                forall|r: usize| out.contains(r) ==> r < city@.roads.len(),
                all@ == out.take(k as int),
                onward@ == out.take(k as int).filter(pred),
        {
            let r: usize = city.intersections[node].outgoing[k];
            proof {
                assert(out.contains(out[k as int]));
                assert(out.take(k + 1).drop_last() =~= out.take(k as int));
                assert(out.take(k + 1).last() == r);
                reveal(Seq::filter);
            }
            all.push(r);
            if city.roads[r].to != back {
                onward.push(r);
            }
            assert(all@ =~= out.take(k + 1));
        }
        assert(out.take(count as int) =~= out);
        if onward.len() == 0 {
            all
        } else {
            onward
        }
    }

    /// Draws the route of a vehicle that starts on a road.
    fn random_route(&mut self, start_road: usize) -> (route: Vec<usize>)
        requires
            old(self)@.city.wf(),
            start_road < old(self)@.city.roads.len(),
        ensures
            (route@, final(self)@.words) == traffic::drawn_route(
                old(self)@.words,
                old(self)@.city,
                start_road as int,
            ),
            final(self)@ == (SimModel { words: final(self)@.words, ..old(self)@ }),
    {
        let ghost before = self@;
        let hops: usize = draw_between(&mut self.rng, MIN_ROUTE_HOPS, MAX_ROUTE_HOPS);
        let mut route: Vec<usize> = Vec::new();
        route.push(start_road);
        let mut last: usize = start_road;
        let mut left: usize = hops - 1;
        assert(route@ =~= seq![start_road]);
        while left > 0
            invariant
                before == old(self)@,
                before.city.wf(),
                self@ == (SimModel { words: self@.words, ..before }),
                route@.len() > 0,
                last == route@.last(),
                last < before.city.roads.len(),
                traffic::drawn_route(before.words, before.city, start_road as int)
                    == traffic::extended_route(
                    self@.words,
                    before.city,
                    route@,
                    left as int,
                ),
            decreases left,
        {
            let pool: Vec<usize> = Self::route_choices(&self.city, last);
            if pool.len() == 0 {
                return route;
            }
            proof {
                traffic_laws::lemma_choices(before.city, last);
            }
            let pick: usize = draw_between(&mut self.rng, 0, pool.len() - 1);
            last = pool[pick];
            route.push(last);
            left = left - 1;
        }
        route
    }

    /// Lets new vehicles enter on the roads that have room.
    fn spawn_vehicles(&mut self)
        requires
            old(self)@.city.wf(),
            old(self)@.config.valid(),
            old(self)@.traffic.wf(old(self)@.city),
            old(self)@.traffic.waits_within(old(self)@.tick as int + 1),
            old(self)@.traffic.waits_within(u32::MAX as int),
        ensures
            (final(self)@.traffic, final(self)@.words) == traffic::spawn_on_roads(
                old(self)@.traffic,
                old(self)@.words,
                old(self)@.city,
                old(self)@.config,
                old(self)@.city.roads.len() as int,
            ),
            final(self)@ == (SimModel {
                traffic: final(self)@.traffic,
                words: final(self)@.words,
                ..old(self)@
            }),
            final(self)@.traffic.wf(final(self)@.city),
            final(self)@.traffic.waits_within(old(self)@.tick as int + 1),
            final(self)@.traffic.waits_within(u32::MAX as int),
            final(self)@.traffic.waits == old(self)@.traffic.waits,
            final(self)@.traffic.stalls == old(self)@.traffic.stalls,
            final(self)@.traffic.completed == old(self)@.traffic.completed,
    {
        let ghost before = self@;
        let count: usize = self.city.roads.len();
        for road_idx in 0..count
            invariant
                before.city.wf(),
                before.config.valid(),
                count == before.city.roads.len(),
                self@ == (SimModel { traffic: self@.traffic, words: self@.words, ..before }),
                self@.traffic.wf(before.city),
                self@.traffic.waits_within(before.tick as int + 1),
                self@.traffic.waits_within(u32::MAX as int),
                self@.traffic.waits == before.traffic.waits,
                self@.traffic.stalls == before.traffic.stalls,
                self@.traffic.completed == before.traffic.completed,
                (self@.traffic, self@.words) == traffic::spawn_on_roads(
                    before.traffic,
                    before.words,
                    before.city,
                    before.config,
                    road_idx as int,
                ),
        {
            proof {
                traffic_laws::lemma_spawn_counts(
                    self@.traffic,
                    self@.words,
                    before.city,
                    before.config,
                    road_idx as int,
                    before.tick as int + 1,
                );
                traffic_laws::lemma_spawn_counts(
                    self@.traffic,
                    self@.words,
                    before.city,
                    before.config,
                    road_idx as int,
                    u32::MAX as int,
                );
            }
            self.spawn_on_road(road_idx);
        }
    }

    /// Lets a new vehicle enter on a road, where it has room and a draw asks
    /// for it.
    fn spawn_on_road(&mut self, road_idx: usize)
        requires
            old(self)@.city.wf(),
            old(self)@.config.valid(),
            old(self)@.traffic.wf(old(self)@.city),
            road_idx < old(self)@.city.roads.len(),
        ensures
            (final(self)@.traffic, final(self)@.words) == traffic::spawn_on_road(
                old(self)@.traffic,
                old(self)@.words,
                old(self)@.city,
                old(self)@.config,
                road_idx as int,
            ),
            final(self)@ == (SimModel {
                traffic: final(self)@.traffic,
                words: final(self)@.words,
                ..old(self)@
            }),
            final(self)@.traffic.wf(final(self)@.city),
    {
        let ghost before = self@;
        assert(before.traffic.queues[road_idx as int] == self.queues@[road_idx as int]@);
        let capacity: usize = self.city.roads[road_idx].capacity;
        if self.queues[road_idx].len() >= capacity {
            return;
        }
        let chance: u128 = spawn_probability(&self.city.roads[road_idx], &self.config);
        if draw_chance(&mut self.rng, chance) {
            let ghost drawn = self@.words;
            proof {
                traffic_laws::lemma_drawn_route(drawn, before.city, road_idx as int);
            }
            let route: Vec<usize> = self.random_route(road_idx);
            let vehicle = Vehicle {
                route,
                route_pos: 0,
                wait_ticks: 0,
                is_stopped: false,
                stall_count: 0,
            };
            let slot: usize = self.alloc_vehicle(vehicle);
            let ghost queues = self@.traffic.queues;
            assert(self.queues@.len() == queues.len());
            self.queues[road_idx].push_back(slot);
            proof {
                assert(self@.traffic.queues =~= queues.update(
                    road_idx as int,
                    queues[road_idx as int].push(slot),
                ));
                traffic_laws::lemma_entered(
                    before.traffic,
                    before.city,
                    road_idx as int,
                    route@,
                );
            }
        }
    }

    /// What can be seen of the traffic: `OBS_PER_INTERSECTION` numbers for each
    /// intersection, in this order: the vehicles on its north-south and on its
    /// east-west approaches, the ticks that these have waited, its phase (0 for
    /// north-south green, 1 for east-west green), and the mean intensity of its
    /// approaches in parts of `ONE`.
    pub fn observe(&self) -> (obs: Vec<u128>)
        requires
            self.wf(),
        ensures
            as_nats(obs@) == traffic::observation(self@),
    {
        let mut obs: Vec<u128> = Vec::new();
        let count: usize = self.city.intersections.len();
        assert(count == self@.city.intersections.len());
        for i in 0..count
            invariant
                self.wf(),
                count == self@.city.intersections.len(),
                obs@.len() == i * OBS_PER_INTERSECTION,
                forall|k: int|
                    0 <= k < obs@.len() ==> #[trigger] obs@[k] == traffic::observed(
                        self@,
                        k / OBS_PER_INTERSECTION as int,
                        k % OBS_PER_INTERSECTION as int,
                    ),
        {
            let ghost before = obs@;
            let fields: [u128; 6] = self.observe_at(i);
            for f in 0..OBS_PER_INTERSECTION
                invariant
                    obs@.len() == i * OBS_PER_INTERSECTION + f,
                    forall|k: int|
                        0 <= k < OBS_PER_INTERSECTION ==> #[trigger] fields@[k]
                            == traffic::observed(self@, i as int, k),
                    forall|k: int|
                        0 <= k < obs@.len() ==> #[trigger] obs@[k] == traffic::observed(
                            self@,
                            k / OBS_PER_INTERSECTION as int,
                            k % OBS_PER_INTERSECTION as int,
                        ),
            {
                obs.push(fields[f]);
            }
        }
        assert(as_nats(obs@) =~= traffic::observation(self@));
        obs
    }

    /// What can be seen at one intersection.
    fn observe_at(&self, i: usize) -> (fields: [u128; 6])
        requires
            self.wf(),
            i < self@.city.intersections.len(),
        ensures
            forall|k: int|
                0 <= k < OBS_PER_INTERSECTION ==> #[trigger] fields@[k] == traffic::observed(
                    self@,
                    i as int,
                    k,
                ),
    {
        let ghost list = self@.city.intersections[i as int].incoming;
        proof {
            city_laws::law_lists_hold_exactly_the_roads(self@.city, i as int);
            assert(self@.city.intersections[i as int] == self.city.intersections@[i as int]@);
        }
        let count: usize = self.city.intersections[i].incoming.len();
        let mut ns_queue: u128 = 0;
        let mut ew_queue: u128 = 0;
        let mut ns_wait: u128 = 0;
        let mut ew_wait: u128 = 0;
        let mut intensity_sum: u128 = 0;
        for k in 0..count
            invariant
                self.wf(),
                i < self.city.intersections@.len(),
                list == self.city.intersections@[i as int].incoming@,
                count == list.len(),
                forall|r: usize| list.contains(r) ==> r < self@.city.roads.len(),
                ns_queue == traffic::approach_queue(
                    self@,
                    list.take(k as int),
                    PhaseGroup::NorthSouth,
                ),
                ew_queue == traffic::approach_queue(
                    self@,
                    list.take(k as int),
                    PhaseGroup::EastWest,
                ),
                ns_wait == traffic::approach_wait(
                    self@,
                    list.take(k as int),
                    PhaseGroup::NorthSouth,
                ),
                ew_wait == traffic::approach_wait(
                    self@,
                    list.take(k as int),
                    PhaseGroup::EastWest,
                ),
                intensity_sum == traffic::intensity_sum(self@.city, list.take(k as int)),
                ns_queue <= 27 * k,
                ew_queue <= 27 * k,
                ns_wait <= 0x1b_0000_0000 * k,
                ew_wait <= 0x1b_0000_0000 * k,
                intensity_sum <= ONE * k,
        {
            let road_id: usize = self.city.intersections[i].incoming[k];
            proof {
                assert(list[k as int] == road_id);
                assert(list.contains(road_id));
                assert(list.take(k + 1).drop_last() =~= list.take(k as int));
                assert(list.take(k + 1).last() == road_id);
                traffic_laws::lemma_capacity(self@.city, road_id as int);
                assert(plan::sound_road(
                    self@.city.roads[road_id as int],
                    road_id as int,
                    self@.city.sites(),
                ));
                assert(self@.traffic.queues[road_id as int] == self.queues@[road_id as int]@);
            }
            let queue_len: u128 = self.queues[road_id].len() as u128;
            let wait: u128 = self.queue_wait(road_id);
            match self.city.roads[road_id].phase_group {
                PhaseGroup::NorthSouth => {
                    ns_queue = ns_queue + queue_len;
                    ns_wait = ns_wait + wait;
                },
                PhaseGroup::EastWest => {
                    ew_queue = ew_queue + queue_len;
                    ew_wait = ew_wait + wait;
                },
            }
            intensity_sum = intensity_sum + self.city.roads[road_id].base_intensity as u128;
        }
        assert(list.take(count as int) =~= list);
        let mean: u128 = if count == 0 {
            0
        } else {
            intensity_sum / (count as u128)
        };
        let phase: u128 = match self.phases[i] {
            Phase::NorthSouthGreen => 0,
            Phase::EastWestGreen => 1,
        };
        [ns_queue, ew_queue, ns_wait, ew_wait, phase, mean]
    }

    /// The ticks that the vehicles on a road have waited.
    fn queue_wait(&self, road_id: usize) -> (wait: u128)
        requires
            self.wf(),
            road_id < self@.city.roads.len(),
        ensures
            wait == traffic::queue_wait(
                self@.traffic,
                self@.traffic.queues[road_id as int],
            ),
            wait <= 0x1b_0000_0000,
    {
        let ghost queue = self@.traffic.queues[road_id as int];
        proof {
            traffic_laws::lemma_capacity(self@.city, road_id as int);
            assert(queue == self.queues@[road_id as int]@);
        }
        let count: usize = self.queues[road_id].len();
        let mut wait: u128 = 0;
        for k in 0..count
            invariant
                self.wf(),
                road_id < self@.city.roads.len(),
                queue == self@.traffic.queues[road_id as int],
                queue == self.queues@[road_id as int]@,
                count == queue.len(),
                count <= 27,
                wait == traffic::queue_wait(self@.traffic, queue.take(k as int)),
                wait <= 0x1_0000_0000 * k,
        {
            let slot: usize = self.queues[road_id][k];
            proof {
                traffic_laws::lemma_queue_entry(
                    self@.traffic,
                    self@.city,
                    road_id as int,
                    k as int,
                );
                assert(self.vehicles@.len() == self@.traffic.vehicles.len());
                assert(slot_view(self.vehicles@[slot as int])
                    == self@.traffic.vehicles[slot as int]);
                assert(queue.take(k + 1).drop_last() =~= queue.take(k as int));
                assert(queue.take(k + 1).last() == slot);
            }
            match &self.vehicles[slot] {
                Some(v) => {
                    wait = wait + v.wait_ticks as u128;
                },
                None => {},
            }
        }
        assert(queue.take(count as int) =~= queue);
        wait
    }

    /// Sets the counts of the tick to zero.
    fn clear_counts(&mut self)
        requires
            old(self)@.traffic.waits.len() == old(self)@.traffic.stalls.len(),
        ensures
            final(self)@ == (SimModel {
                traffic: traffic::new_tick(old(self)@.traffic),
                ..old(self)@
            }),
    {
        let ghost before = self@;
        let count: usize = self.road_waits.len();
        self.completed_this_tick = 0;
        for r in 0..count
            invariant
                count == before.traffic.waits.len(),
                count == before.traffic.stalls.len(),
                self.road_waits@.len() == count,
                self.road_stalls@.len() == count,
                forall|i: int| 0 <= i < r ==> #[trigger] self.road_waits@[i] == 0,
                forall|i: int| 0 <= i < r ==> #[trigger] self.road_stalls@[i] == 0,
                self@ == (SimModel {
                    traffic: Traffic {
                        completed: 0,
                        waits: self@.traffic.waits,
                        stalls: self@.traffic.stalls,
                        ..before.traffic
                    },
                    ..before
                }),
        {
            self.road_waits[r] = 0;
            self.road_stalls[r] = 0;
        }
        proof {
            let next = traffic::new_tick(before.traffic);
            assert(self@.traffic.waits =~= next.waits);
            assert(self@.traffic.stalls =~= next.stalls);
        }
    }

    /// Switches each signal to the phase that its action stands for.
    fn set_phases(&mut self, actions: &[u8])
        requires
            actions@.len() == old(self)@.phases.len(),
        ensures
            final(self)@ == (SimModel { phases: traffic::phases_of(actions@), ..old(self)@ }),
    {
        let ghost before = self@;
        let count: usize = actions.len();
        for i in 0..count
            invariant
                count == actions@.len(),
                count == self.phases@.len(),
                forall|k: int|
                    0 <= k < i ==> #[trigger] self.phases@[k] == traffic::phase_of(actions@[k]),
                self@ == (SimModel { phases: self@.phases, ..before }),
        {
            self.phases[i] = Phase::from_action(actions[i]);
        }
        assert(self@.phases =~= traffic::phases_of(actions@));
    }

    /// Runs one tick on every road.
    fn process_roads(&mut self)
        requires
            old(self)@.city.wf(),
            old(self)@.traffic.wf(old(self)@.city),
            old(self)@.traffic.counts_within(old(self)@.city, 0),
            old(self)@.phases.len() == old(self)@.city.intersections.len(),
            old(self)@.traffic.waits_within(old(self)@.tick as int),
            old(self)@.traffic.waits_within(u32::MAX - 1),
        ensures
            final(self)@ == (SimModel {
                traffic: traffic::process_roads(
                    old(self)@.traffic,
                    old(self)@.city,
                    old(self)@.phases,
                    old(self)@.city.roads.len() as int,
                ),
                ..old(self)@
            }),
            final(self)@.traffic.wf(old(self)@.city),
            final(self)@.traffic.counts_within(
                old(self)@.city,
                old(self)@.city.roads.len() as int,
            ),
            final(self)@.traffic.waits_within(old(self)@.tick as int + 1),
            final(self)@.traffic.waits_within(u32::MAX as int),
    {
        let ghost before = self@;
        let count: usize = self.city.roads.len();
        for road_idx in 0..count
            invariant
                before.city.wf(),
                count == before.city.roads.len(),
                before.phases.len() == before.city.intersections.len(),
                self@ == (SimModel {
                    traffic: traffic::process_roads(
                        before.traffic,
                        before.city,
                        before.phases,
                        road_idx as int,
                    ),
                    ..before
                }),
                self@.traffic.wf(before.city),
                self@.traffic.counts_within(before.city, road_idx as int),
                traffic_laws::waits_staged(self@.traffic, u32::MAX - 1, road_idx as int),
                traffic_laws::waits_staged(self@.traffic, before.tick as int, road_idx as int),
        {
            let ghost now = self@.traffic;
            let ghost r = road_idx as int;
            proof {
                assert(now.waits[r] == 0);
                assert(now.stalls[r] == 0);
                traffic_laws::lemma_process_road(now, before.city, before.phases, r);
                traffic_laws::lemma_process_counts(now, before.city, before.phases, r);
                traffic_laws::lemma_process_waits(
                    now,
                    before.city,
                    before.phases,
                    r,
                    u32::MAX - 1,
                );
                traffic_laws::lemma_process_waits(
                    now,
                    before.city,
                    before.phases,
                    r,
                    before.tick as int,
                );
            }
            self.process_road(road_idx);
        }
    }

    /// Whether one more tick can be counted: no counter is at its limit.
    pub fn can_step(&self) -> (can: bool)
        ensures
            can == self@.can_tick(),
    {
        let ghost traffic = self@.traffic;
        if self.tick == u64::MAX {
            return false;
        }
        for k in 0..self.vehicles.len()
            invariant
                traffic == self@.traffic,
                forall|v: int|
                    #![trigger traffic.vehicles[v]]
                    0 <= v < k && traffic.vehicles[v] is Some ==> traffic::trip(
                        traffic,
                        v,
                    ).wait_ticks < u32::MAX,
        {
            assert(traffic.vehicles[k as int] == slot_view(self.vehicles@[k as int]));
            match &self.vehicles[k] {
                Some(v) => {
                    if v.wait_ticks == u32::MAX {
                        return false;
                    }
                },
                None => {},
            }
        }
        true
    }

    /// Runs one tick. `actions[i]` picks the phase of intersection `i`: 0 is
    /// north-south green, anything else east-west green. Gives what is observed
    /// after the tick, the reward in parts of `ONE`, and whether the simulation
    /// has run its course.
    pub fn step(&mut self, actions: &[u8]) -> (result: (Vec<u128>, i128, bool))
        requires
            old(self).wf(),
            old(self)@.can_tick(),
            actions@.len() == old(self)@.city.intersections.len(),
        ensures
            final(self)@ == old(self)@.after_step(actions@),
            final(self).wf(),
            as_nats(result.0@) == traffic::observation(final(self)@),
            result.1 == final(self)@.reward(),
            result.2 == final(self)@.done(),
    {
        let ghost before = self@;
        self.set_phases(actions);
        self.clear_counts();
        proof {
            traffic_laws::lemma_new_tick(before.traffic, before.city);
        }
        self.process_roads();
        self.spawn_vehicles();
        self.tick = self.tick + 1;
        assert(self@ == before.after_step(actions@));
        assert(self@.wf());
        let reward: i128 = self.reward();
        let done: bool = self.tick >= self.config.max_ticks;
        (self.observe(), reward, done)
    }

    /// Starts over in the city of a seed, with the same parameters. Gives what
    /// is observed at the start.
    pub fn reset(&mut self, seed: u64) -> (obs: Vec<u128>)
        requires
            old(self).wf(),
        ensures
            final(self)@ == traffic::start(seed, old(self)@.params, old(self)@.config),
            final(self).wf(),
            as_nats(obs@) == traffic::observation(final(self)@),
    {
        *self = Simulation::new(seed, self.params.clone(), self.config);
        self.observe()
    }

    /// The reward for the last tick, in parts of `ONE`, intersection by
    /// intersection in the order of `observe`: each counts the waits and stalls
    /// on its own approaches only.
    pub fn rewards_per_intersection(&self) -> (rewards: Vec<i128>)
        requires
            self.wf(),
        ensures
            rewards@.len() == self@.city.intersections.len(),
            forall|i: int|
                0 <= i < rewards@.len() ==> #[trigger] rewards@[i] == traffic::local_reward(
                    self@,
                    i,
                ),
    {
        let mut rewards: Vec<i128> = Vec::new();
        let count: usize = self.city.intersections.len();
        assert(count == self@.city.intersections.len());
        for i in 0..count
            invariant
                self.wf(),
                count == self@.city.intersections.len(),
                rewards@.len() == i,
                forall|k: int|
                    0 <= k < rewards@.len() ==> #[trigger] rewards@[k] == traffic::local_reward(
                        self@,
                        k,
                    ),
        {
            rewards.push(self.reward_at(i));
        }
        rewards
    }

    /// The reward of one intersection, in parts of `ONE`.
    fn reward_at(&self, i: usize) -> (reward: i128)
        requires
            self.wf(),
            i < self@.city.intersections.len(),
        ensures
            reward == traffic::local_reward(self@, i as int),
    {
        let ghost list = self@.city.intersections[i as int].incoming;
        let ghost all_waits = self@.traffic.waits;
        let ghost all_stalls = self@.traffic.stalls;
        proof {
            city_laws::law_lists_hold_exactly_the_roads(self@.city, i as int);
            assert(self@.city.intersections[i as int] == self.city.intersections@[i as int]@);
            traffic_laws::lemma_tick_counts(self@.traffic, self@.city);
        }
        let count: usize = self.city.intersections[i].incoming.len();
        let mut waits: u128 = 0;
        let mut stalls: u128 = 0;
        for k in 0..count
            invariant
                self.wf(),
                i < self.city.intersections@.len(),
                list == self.city.intersections@[i as int].incoming@,
                count == list.len(),
                all_waits == self@.traffic.waits,
                all_stalls == self@.traffic.stalls,
                forall|r: usize| list.contains(r) ==> r < self@.city.roads.len(),
                forall|r: int| 0 <= r < self@.city.roads.len() ==> #[trigger] all_waits[r] <= 27,
                forall|r: int| 0 <= r < self@.city.roads.len() ==> #[trigger] all_stalls[r] <= 1,
                waits == traffic::total_over(all_waits, list.take(k as int)),
                stalls == traffic::total_over(all_stalls, list.take(k as int)),
                waits <= 27 * k,
                stalls <= k,
        {
            let road_id: usize = self.city.intersections[i].incoming[k];
            proof {
                assert(list[k as int] == road_id);
                assert(list.contains(road_id));
                assert(list.take(k + 1).drop_last() =~= list.take(k as int));
                assert(list.take(k + 1).last() == road_id);
                assert(all_waits[road_id as int] == self.road_waits@[road_id as int]);
                assert(all_stalls[road_id as int] == self.road_stalls@[road_id as int]);
            }
            waits = waits + self.road_waits[road_id] as u128;
            stalls = stalls + self.road_stalls[road_id] as u128;
        }
        assert(list.take(count as int) =~= list);
        reward_for(waits, stalls, &self.config)
    }

    /// The ticks that all vehicles have waited on their present roads.
    fn wait_sum(&self) -> (sum: u128)
        ensures
            sum == traffic::total_wait_ticks(self@.traffic.vehicles),
    {
        let ghost vehicles = self@.traffic.vehicles;
        let mut sum: u128 = 0;
        for k in 0..self.vehicles.len()
            invariant
                vehicles == self@.traffic.vehicles,
                sum == traffic::total_wait_ticks(vehicles.take(k as int)),
                sum <= 0x1_0000_0000 * k,
        {
            proof {
                assert(vehicles.take(k + 1).drop_last() =~= vehicles.take(k as int));
                assert(vehicles.take(k + 1).last() == slot_view(self.vehicles@[k as int]));
            }
            match &self.vehicles[k] {
                Some(v) => {
                    sum = sum + v.wait_ticks as u128;
                },
                None => {},
            }
        }
        assert(vehicles.take(self.vehicles.len() as int) =~= vehicles);
        sum
    }

    /// The stalls of all vehicles.
    fn stall_sum(&self) -> (sum: u128)
        ensures
            sum == traffic::total_stalls(self@.traffic.vehicles),
    {
        let ghost vehicles = self@.traffic.vehicles;
        let mut sum: u128 = 0;
        for k in 0..self.vehicles.len()
            invariant
                vehicles == self@.traffic.vehicles,
                sum == traffic::total_stalls(vehicles.take(k as int)),
                sum <= 0x1_0000_0000 * k,
        {
            proof {
                assert(vehicles.take(k + 1).drop_last() =~= vehicles.take(k as int));
                assert(vehicles.take(k + 1).last() == slot_view(self.vehicles@[k as int]));
            }
            match &self.vehicles[k] {
                Some(v) => {
                    sum = sum + v.stall_count as u128;
                },
                None => {},
            }
        }
        assert(vehicles.take(self.vehicles.len() as int) =~= vehicles);
        sum
    }

    /// Whether the sums of the metrics fit their fields.
    pub fn metrics_fit(&self) -> (fit: bool)
        ensures
            fit == (traffic::total_wait_ticks(self@.traffic.vehicles) <= u64::MAX
                && traffic::stalls_this_tick(self@.traffic) <= u32::MAX),
    {
        self.wait_sum() <= u64::MAX as u128 && sum_stalls(&self.road_stalls) <= u32::MAX as u128
    }

    /// What the last tick counted, and what the vehicles add up to.
    pub fn metrics(&self) -> (metrics: TickMetrics)
        requires
            traffic::total_wait_ticks(self@.traffic.vehicles) <= u64::MAX,
            traffic::stalls_this_tick(self@.traffic) <= u32::MAX,
        ensures
            metrics.active_vehicles == traffic::active(self@.traffic.vehicles),
            metrics.completed_vehicles == self@.traffic.completed,
            metrics.total_wait_ticks == traffic::total_wait_ticks(self@.traffic.vehicles),
            metrics.stall_events == traffic::stalls_this_tick(self@.traffic),
    {
        let ghost vehicles = self@.traffic.vehicles;
        let mut active: usize = 0;
        for k in 0..self.vehicles.len()
            invariant
                vehicles == self@.traffic.vehicles,
                active == traffic::active(vehicles.take(k as int)),
                active <= k,
        {
            proof {
                assert(vehicles.take(k + 1).drop_last() =~= vehicles.take(k as int));
                assert(vehicles.take(k + 1).last() == slot_view(self.vehicles@[k as int]));
            }
            match &self.vehicles[k] {
                Some(_) => {
                    active = active + 1;
                },
                None => {},
            }
        }
        assert(vehicles.take(self.vehicles.len() as int) =~= vehicles);
        TickMetrics {
            active_vehicles: active,
            completed_vehicles: self.completed_this_tick,
            total_wait_ticks: self.wait_sum() as u64,
            stall_events: sum_stalls(&self.road_stalls) as u32,
        }
    }

    /// Whether the stalls of the vehicles in the network fit their count.
    pub fn stall_count_fits(&self) -> (fits: bool)
        ensures
            fits == (traffic::total_stalls(self@.traffic.vehicles) <= u32::MAX),
    {
        self.stall_sum() <= u32::MAX as u128
    }

    /// The stalls of the vehicles in the network.
    pub fn total_stall_count(&self) -> (count: u32)
        requires
            traffic::total_stalls(self@.traffic.vehicles) <= u32::MAX,
        ensures
            count == traffic::total_stalls(self@.traffic.vehicles),
    {
        self.stall_sum() as u32
    }

    /// The reward for the last tick, in parts of `ONE`.
    fn reward(&self) -> (reward: i128)
        requires
            self.wf(),
        ensures
            reward == self@.reward(),
    {
        proof {
            traffic_laws::lemma_tick_counts(self@.traffic, self@.city);
        }
        reward_for(sum_waits(&self.road_waits), sum_stalls(&self.road_stalls), &self.config)
    }
}

/// The sum of the waits of the roads.
fn sum_waits(waits: &Vec<u64>) -> (sum: u128)
    ensures
        sum == traffic::total(waits@.map_values(|w: u64| w as nat)),
{
    let ghost counts = waits@.map_values(|w: u64| w as nat);
    let mut sum: u128 = 0;
    for k in 0..waits.len()
        invariant
            counts == waits@.map_values(|w: u64| w as nat),
            sum == traffic::total(counts.take(k as int)),
            sum <= 0x1_0000_0000_0000_0000 * k,
    {
        proof {
            traffic_laws::lemma_total_take(counts, k as int);
        }
        sum = sum + waits[k] as u128;
    }
    assert(counts.take(waits.len() as int) =~= counts);
    sum
}

/// The sum of the stalls of the roads.
fn sum_stalls(stalls: &Vec<u32>) -> (sum: u128)
    ensures
        sum == traffic::total(stalls@.map_values(|w: u32| w as nat)),
{
    let ghost counts = stalls@.map_values(|w: u32| w as nat);
    let mut sum: u128 = 0;
    for k in 0..stalls.len()
        invariant
            counts == stalls@.map_values(|w: u32| w as nat),
            sum == traffic::total(counts.take(k as int)),
            sum <= 0x1_0000_0000 * k,
    {
        proof {
            traffic_laws::lemma_total_take(counts, k as int);
        }
        sum = sum + stalls[k] as u128;
    }
    assert(counts.take(stalls.len() as int) =~= counts);
    sum
}

/// The reward, in parts of `ONE`, for a number of waits and stalls.
pub fn reward_for(waits: u128, stalls: u128, config: &SimConfig) -> (reward: i128)
    requires
        waits <= 0x1b_0000_0000_0000_0000,
        stalls <= 0x1_0000_0000_0000_0000,
        config.valid(),
    ensures
        reward == traffic::reward_of(waits as nat, stalls as nat, *config),
{
    let penalty: i128 = config.stall_penalty as i128;
    assert(0 <= waits * ONE <= 0x1b_0000_0000_0000_0000 * 0x1_0000_0000) by (nonlinear_arith)
        requires
            0 <= waits <= 0x1b_0000_0000_0000_0000,
            ONE == 0x1_0000_0000,
    ;
    assert(-0x4000_0000_0000_0000 * 0x1_0000_0000_0000_0000 <= stalls * penalty
        <= 0x4000_0000_0000_0000 * 0x1_0000_0000_0000_0000) by (nonlinear_arith)
        requires
            0 <= stalls <= 0x1_0000_0000_0000_0000,
            -0x4000_0000_0000_0000 <= penalty <= 0x4000_0000_0000_0000,
    ;
    -((waits as i128) * (ONE as i128) + (stalls as i128) * penalty)
}

/// The probability that a vehicle enters on a road in a tick.
pub fn spawn_probability(road: &Road, config: &SimConfig) -> (chance: u128)
    requires
        road.base_intensity <= ONE,
        config.valid(),
    ensures
        chance == traffic::spawn_chance(*road, *config),
{
    let intensity: u64 = road.base_intensity;
    let scale: u128 = config.spawn_scale;
    assert(0 <= intensity * scale <= 0x1_0000_0000 * 0x400_0000_0000_0000_0000_0000)
        by (nonlinear_arith)
        requires
            0 <= intensity <= 0x1_0000_0000,
            0 <= scale <= 0x400_0000_0000_0000_0000_0000,
    ;
    (intensity as u128) * scale / (ONE as u128)
}

} // verus!
