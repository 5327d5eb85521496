//! What holds of every simulation, from one tick to the next.

use vstd::prelude::*;

use crate::city::{CityModel, ParamsModel, PhaseGroup};
use crate::city_laws;
use crate::fixed::ONE;
use crate::plan;
use crate::random;
use crate::sim::{
    Phase, SimConfig, Simulation, MAX_ROUTE_HOPS, MIN_ROUTE_HOPS, OBS_PER_INTERSECTION,
};
use crate::traffic;
use crate::traffic::{SimModel, Traffic, Trip};
use crate::traffic_laws;

verus! {

/// A simulation after a tick for each of the given sets of actions.
pub open spec fn run(model: SimModel, script: Seq<Seq<u8>>) -> SimModel
    decreases script.len(),
{
    if script.len() == 0 {
        model
    } else {
        run(model, script.drop_last()).after_step(script.last())
    }
}

/// The same seed, parameters and actions give the same run.
pub proof fn law_runs_are_reproducible(
    a: Simulation,
    b: Simulation,
    seed: u64,
    params: ParamsModel,
    config: SimConfig,
    script: Seq<Seq<u8>>,
)
    requires
        a@ == traffic::start(seed, params, config),
        b@ == traffic::start(seed, params, config),
    ensures
        run(a@, script) == run(b@, script),
{
}

/// A simulation with another stall penalty.
pub open spec fn with_penalty(model: SimModel, stall_penalty: i64) -> SimModel {
    SimModel { config: SimConfig { stall_penalty, ..model.config }, ..model }
}

/// The stall penalty does not affect the dynamics: with another penalty the
/// vehicles, the observations and the end of a run are the same.
pub proof fn law_stall_penalty_only_shapes_the_reward(
    model: SimModel,
    stall_penalty: i64,
    script: Seq<Seq<u8>>,
)
    ensures
        run(with_penalty(model, stall_penalty), script) == with_penalty(
            run(model, script),
            stall_penalty,
        ),
        traffic::observation(run(with_penalty(model, stall_penalty), script))
            == traffic::observation(run(model, script)),
        run(with_penalty(model, stall_penalty), script).done() == run(model, script).done(),
    decreases script.len(),
{
    if script.len() > 0 {
        law_stall_penalty_only_shapes_the_reward(model, stall_penalty, script.drop_last());
        let before = run(model, script.drop_last());
        lemma_spawn_penalty(
            before.after_moves(script.last()),
            before.words,
            before.city,
            before.config,
            stall_penalty,
            before.city.roads.len() as int,
        );
    }
    let one = run(model, script);
    let two = run(with_penalty(model, stall_penalty), script);
    lemma_same_observation(one, two);
}

proof fn lemma_spawn_penalty(
    traffic: Traffic,
    words: Map<nat, u32>,
    city: CityModel,
    config: SimConfig,
    stall_penalty: i64,
    count: int,
)
    ensures
        traffic::spawn_on_roads(traffic, words, city, config, count) == traffic::spawn_on_roads(
            traffic,
            words,
            city,
            SimConfig { stall_penalty, ..config },
            count,
        ),
    decreases count,
{
    if count > 0 {
        lemma_spawn_penalty(traffic, words, city, config, stall_penalty, count - 1);
    }
}

proof fn lemma_same_observation(a: SimModel, b: SimModel)
    requires
        a.city == b.city,
        a.traffic == b.traffic,
        a.phases == b.phases,
    ensures
        traffic::observation(a) == traffic::observation(b),
{
    assert forall|i: int, f: int| #[trigger]
        traffic::observed(a, i, f) == traffic::observed(b, i, f) by {
        let list = a.city.intersections[i].incoming;
        lemma_same_approaches(a, b, list, PhaseGroup::NorthSouth);
        lemma_same_approaches(a, b, list, PhaseGroup::EastWest);
    }
    assert(traffic::observation(a) =~= traffic::observation(b));
}

proof fn lemma_same_approaches(a: SimModel, b: SimModel, list: Seq<usize>, group: PhaseGroup)
    requires
        a.city == b.city,
        a.traffic == b.traffic,
    ensures
        traffic::approach_queue(a, list, group) == traffic::approach_queue(b, list, group),
        traffic::approach_wait(a, list, group) == traffic::approach_wait(b, list, group),
    decreases list.len(),
{
    if list.len() > 0 {
        lemma_same_approaches(a, b, list.drop_last(), group);
    }
}

/// The reward is minus the waits and the weighted stalls of the tick; it is
/// never positive unless the penalty is negative.
pub proof fn law_reward_is_a_penalty(model: SimModel)
    ensures
        model.reward() == -(traffic::waits_this_tick(model.traffic) * ONE
            + traffic::stalls_this_tick(model.traffic) * model.config.stall_penalty),
        model.config.stall_penalty >= 0 ==> model.reward() <= 0,
{
    let stalls = traffic::stalls_this_tick(model.traffic);
    let penalty = model.config.stall_penalty;
    assert(penalty >= 0 ==> stalls * penalty >= 0) by (nonlinear_arith)
        requires
            stalls >= 0,
    ;
}

/// A run is done exactly once it has lasted for `max_ticks` ticks.
pub proof fn law_runs_last_for_max_ticks(
    seed: u64,
    params: ParamsModel,
    config: SimConfig,
    script: Seq<Seq<u8>>,
)
    ensures
        run(traffic::start(seed, params, config), script).tick == script.len(),
        run(traffic::start(seed, params, config), script).done() <==> script.len()
            >= config.max_ticks,
{
    lemma_run_tick(traffic::start(seed, params, config), script);
}

proof fn lemma_run_tick(model: SimModel, script: Seq<Seq<u8>>)
    ensures
        run(model, script).tick == model.tick + script.len(),
        run(model, script).config == model.config,
        run(model, script).city == model.city,
    decreases script.len(),
{
    if script.len() > 0 {
        lemma_run_tick(model, script.drop_last());
    }
}

/// An observation has the same width for every intersection of every city.
pub proof fn law_observation_has_a_fixed_width(model: SimModel)
    ensures
        traffic::observation(model).len() == model.city.intersections.len()
            * OBS_PER_INTERSECTION,
        forall|i: int, f: int|
            0 <= i < model.city.intersections.len() && 0 <= f < OBS_PER_INTERSECTION
                ==> traffic::observation(model)[i * OBS_PER_INTERSECTION + f]
                == #[trigger] traffic::observed(model, i, f),
{
}

/// At the start nothing is on the roads, and every signal is north-south green.
pub proof fn law_start_is_empty(
    sim: Simulation,
    seed: u64,
    params: ParamsModel,
    config: SimConfig,
    i: int,
)
    requires
        sim.wf(),
        sim@ == traffic::start(seed, params, config),
        0 <= i < sim@.city.intersections.len(),
    ensures
        forall|f: int| 0 <= f < 5 ==> #[trigger] traffic::observed(sim@, i, f) == 0,
        traffic::active(sim@.traffic.vehicles) == 0,
{
    let model = sim@;
    let list = model.city.intersections[i].incoming;
    city_laws::law_lists_hold_exactly_the_roads(model.city, i);
    assert forall|k: int| 0 <= k < list.len() implies (#[trigger] list[k])
        < model.city.roads.len() by {
        assert(list.contains(list[k]));
    }
    lemma_empty_approaches(model, list, PhaseGroup::NorthSouth);
    lemma_empty_approaches(model, list, PhaseGroup::EastWest);
}

proof fn lemma_empty_approaches(model: SimModel, list: Seq<usize>, group: PhaseGroup)
    requires
        model.traffic == traffic::no_traffic(model.city.roads.len()),
        forall|k: int| 0 <= k < list.len() ==> (#[trigger] list[k]) < model.city.roads.len(),
    ensures
        traffic::approach_queue(model, list, group) == 0,
        traffic::approach_wait(model, list, group) == 0,
    decreases list.len(),
{
    if list.len() > 0 {
        let rest = list.drop_last();
        assert forall|k: int| 0 <= k < rest.len() implies (#[trigger] rest[k])
            < model.city.roads.len() by {
            assert(list[k] < model.city.roads.len());
        }
        lemma_empty_approaches(model, rest, group);
        let last = list[list.len() - 1];
        assert(last < model.city.roads.len());
    }
}

/// The slots in the queues stay valid: each place in a queue holds the slot of
/// a vehicle that is on that road, and each vehicle is in exactly one place.
pub proof fn law_queues_and_vehicles_agree(model: SimModel)
    requires
        model.wf(),
    ensures
        forall|r: int, i: int|
            #![trigger model.traffic.queues[r][i]]
            0 <= r < model.city.roads.len() && 0 <= i < model.traffic.queues[r].len() ==> {
                let slot = model.traffic.queues[r][i] as int;
                &&& slot < model.traffic.vehicles.len()
                &&& model.traffic.vehicles[slot] is Some
                &&& traffic::road_of(traffic::trip(model.traffic, slot)) == r
            },
        forall|v: int|
            #![trigger model.traffic.vehicles[v]]
            0 <= v < model.traffic.vehicles.len() && model.traffic.vehicles[v] is Some ==> {
                let r = traffic::road_of(traffic::trip(model.traffic, v)) as int;
                &&& r < model.city.roads.len()
                &&& model.traffic.queues[r].contains(v as usize)
            },
        forall|r: int, i: int, s: int, j: int|
            #![trigger model.traffic.queues[r][i], model.traffic.queues[s][j]]
            0 <= r < model.city.roads.len() && 0 <= i < model.traffic.queues[r].len() && 0 <= s
                < model.city.roads.len() && 0 <= j < model.traffic.queues[s].len()
                && model.traffic.queues[r][i] == model.traffic.queues[s][j] ==> r == s && i == j,
{
    let t = model.traffic;
    assert forall|r: int, i: int|
        #![trigger t.queues[r][i]]
        0 <= r < model.city.roads.len() && 0 <= i < t.queues[r].len() implies {
        let slot = t.queues[r][i] as int;
        &&& slot < t.vehicles.len()
        &&& t.vehicles[slot] is Some
        &&& traffic::road_of(traffic::trip(t, slot)) == r
    } by {
        traffic_laws::lemma_queue_entry(t, model.city, r, i);
    }
    assert forall|v: int|
        #![trigger t.vehicles[v]]
        0 <= v < t.vehicles.len() && t.vehicles[v] is Some implies {
        let r = traffic::road_of(traffic::trip(t, v)) as int;
        &&& r < model.city.roads.len()
        &&& t.queues[r].contains(v as usize)
    } by {
        reveal(Traffic::vehicles_are_queued);
        traffic_laws::lemma_next_road(model.city, traffic::trip(t, v));
    }
    assert forall|r: int, i: int, s: int, j: int|
        #![trigger t.queues[r][i], t.queues[s][j]]
        0 <= r < model.city.roads.len() && 0 <= i < t.queues[r].len() && 0 <= s
            < model.city.roads.len() && 0 <= j < t.queues[s].len() && t.queues[r][i]
            == t.queues[s][j] implies r == s && i == j by {
        traffic_laws::lemma_queue_entry(t, model.city, r, i);
        traffic_laws::lemma_queue_entry(t, model.city, s, j);
        traffic_laws::lemma_queue_unique(t, model.city, r);
    }
}

/// Slots are reused, not leaked: a slot is added only where none is free, and
/// there are never more slots than the roads hold vehicles.
pub proof fn law_slots_are_reused(model: SimModel, trip: Trip)
    requires
        model.wf(),
    ensures
        model.traffic.free_slots.len() > 0 ==> traffic::allocated(
            model.traffic,
            trip,
        ).vehicles.len() == model.traffic.vehicles.len(),
        model.traffic.vehicles.len() == traffic::active(model.traffic.vehicles)
            + model.traffic.free_slots.len(),
        model.traffic.vehicles.len() <= traffic::total_capacity(model.city.roads),
        model.traffic.vehicles.len() <= 27 * model.city.roads.len(),
{
    if model.traffic.free_slots.len() > 0 {
        traffic_laws::lemma_next_slot(model.traffic);
    }
    lemma_total_capacity(model.city, model.city.roads.len() as int);
    assert(model.city.roads.take(model.city.roads.len() as int) =~= model.city.roads);
}

proof fn lemma_total_capacity(city: CityModel, k: int)
    requires
        city.wf(),
        0 <= k <= city.roads.len(),
    ensures
        traffic::total_capacity(city.roads.take(k)) <= 27 * k,
    decreases k,
{
    if k > 0 {
        lemma_total_capacity(city, k - 1);
        assert(city.roads.take(k).drop_last() =~= city.roads.take(k - 1));
        traffic_laws::lemma_capacity(city, k - 1);
    }
}

/// A vehicle that leaves moves no other: its slot is empty, and all other slots
/// and the queues are as they were. A vehicle that comes next gets that slot, and
/// the list of free slots is then as it was before.
pub proof fn law_freed_slot_is_used_next(traffic: Traffic, slot: usize, trip: Trip)
    requires
        slot < traffic.vehicles.len(),
        traffic.vehicles[slot as int] is Some,
    ensures
        ({
            let gone = traffic::freed(traffic, slot);
            let next = traffic::allocated(gone, trip);
            &&& gone.vehicles == traffic.vehicles.update(slot as int, None)
            &&& gone.queues == traffic.queues
            &&& traffic::next_slot(gone) == slot
            &&& next.vehicles == traffic.vehicles.update(slot as int, Some(trip))
            &&& next.free_slots == traffic.free_slots
            &&& next.queues == traffic.queues
        }),
{
    let gone = traffic::freed(traffic, slot);
    let next = traffic::allocated(gone, trip);
    assert(gone.free_slots.last() == slot);
    assert(next.vehicles =~= traffic.vehicles.update(slot as int, Some(trip)));
    assert(next.free_slots =~= traffic.free_slots);
}

/// A vehicle that comes or goes.
pub enum SlotChange {
    Alloc(Trip),
    Free(usize),
}

/// The traffic after a vehicle has come or gone.
pub open spec fn changed(traffic: Traffic, change: SlotChange) -> Traffic {
    match change {
        SlotChange::Alloc(trip) => traffic::allocated(traffic, trip),
        SlotChange::Free(slot) => traffic::freed(traffic, slot),
    }
}

/// Whether a vehicle can come or go so: only a vehicle that is there can go, and
/// slots are numbered by the machine's integers.
pub open spec fn can_change(traffic: Traffic, change: SlotChange) -> bool {
    match change {
        SlotChange::Alloc(_) => traffic.vehicles.len() < usize::MAX || traffic.free_slots.len() > 0,
        SlotChange::Free(slot) => slot < traffic.vehicles.len() && traffic.vehicles[slot as int]
            is Some,
    }
}

/// The traffic on so many roads after some vehicles have come and gone.
pub open spec fn after_changes(roads: nat, changes: Seq<SlotChange>) -> Traffic
    decreases changes.len(),
{
    if changes.len() == 0 {
        traffic::no_traffic(roads)
    } else {
        changed(after_changes(roads, changes.drop_last()), changes.last())
    }
}

/// Whether all vehicles can come and go so.
pub open spec fn can_change_all(roads: nat, changes: Seq<SlotChange>) -> bool
    decreases changes.len(),
{
    changes.len() == 0 || {
        &&& can_change_all(roads, changes.drop_last())
        &&& can_change(after_changes(roads, changes.drop_last()), changes.last())
    }
}

/// The largest number of slots in use at one time while vehicles come and go.
pub open spec fn most_in_use(roads: nat, changes: Seq<SlotChange>) -> nat
    decreases changes.len(),
{
    if changes.len() == 0 {
        0
    } else {
        larger(
            most_in_use(roads, changes.drop_last()),
            traffic::active(after_changes(roads, changes).vehicles),
        )
    }
}

/// The larger of two numbers.
pub open spec fn larger(a: nat, b: nat) -> nat {
    if a >= b {
        a
    } else {
        b
    }
}

/// However vehicles come and go, no slot leaks and none is handed out twice: the
/// free slots are exactly the empty ones, each listed once, the next vehicle gets
/// an empty or a new slot, and there are as many slots as were ever in use at one
/// time.
pub proof fn law_no_slot_leaks(roads: nat, changes: Seq<SlotChange>)
    requires
        can_change_all(roads, changes),
    ensures
        ({
            let now = after_changes(roads, changes);
            &&& now.free_slots.no_duplicates()
            &&& forall|slot: usize|
                now.free_slots.contains(slot) <==> slot < now.vehicles.len()
                    && now.vehicles[slot as int] is None
            &&& now.free_slots.len() > 0 ==> now.vehicles[traffic::next_slot(now) as int] is None
            &&& now.free_slots.len() == 0 && now.vehicles.len() < usize::MAX
                ==> traffic::next_slot(now) == now.vehicles.len()
            &&& now.vehicles.len() == most_in_use(roads, changes)
        }),
{
    lemma_changes(roads, changes);
    let now = after_changes(roads, changes);
    reveal(Traffic::free_slots_are_free);
    assert forall|slot: usize| now.free_slots.contains(slot) implies slot < now.vehicles.len()
        && now.vehicles[slot as int] is None by {
        let i = now.free_slots.index_of(slot);
        assert(now.free_slots[i] == slot);
    }
    assert forall|slot: usize|
        slot < now.vehicles.len() && now.vehicles[slot as int]
            is None implies now.free_slots.contains(slot) by {
        assert(now.vehicles[slot as int] is None);
    }
    if now.free_slots.len() > 0 {
        assert(now.free_slots.contains(now.free_slots.last()));
    }
}

proof fn lemma_changes(roads: nat, changes: Seq<SlotChange>)
    requires
        can_change_all(roads, changes),
    ensures
        ({
            let now = after_changes(roads, changes);
            &&& now.free_slots_are_free()
            &&& now.vehicles.len() <= usize::MAX
            &&& now.vehicles.len() == traffic::active(now.vehicles) + now.free_slots.len()
            &&& now.vehicles.len() == most_in_use(roads, changes)
        }),
    decreases changes.len(),
{
    if changes.len() == 0 {
        reveal(Traffic::free_slots_are_free);
    } else {
        lemma_changes(roads, changes.drop_last());
        let before = after_changes(roads, changes.drop_last());
        match changes.last() {
            SlotChange::Alloc(trip) => {
                traffic_laws::lemma_allocated_free(before, trip);
                lemma_allocated_count(before, trip);
            },
            SlotChange::Free(slot) => {
                traffic_laws::lemma_complete_free(before, slot);
                traffic_laws::lemma_active_update(before.vehicles, slot as int, None);
            },
        }
    }
}

/// One more vehicle is one more slot in use, and one more slot only where none
/// was free.
proof fn lemma_allocated_count(traffic: Traffic, trip: Trip)
    requires
        traffic.free_slots_are_free(),
        traffic.vehicles.len() < usize::MAX || traffic.free_slots.len() > 0,
    ensures
        ({
            let next = traffic::allocated(traffic, trip);
            &&& traffic::active(next.vehicles) == traffic::active(traffic.vehicles) + 1
            &&& traffic.free_slots.len() > 0 ==> next.vehicles.len() == traffic.vehicles.len()
            &&& traffic.free_slots.len() == 0 ==> next.vehicles.len() == traffic.vehicles.len() + 1
        }),
{
    traffic_laws::lemma_next_slot(traffic);
    if traffic.free_slots.len() > 0 {
        let slot = traffic.free_slots.last() as int;
        traffic_laws::lemma_active_update(traffic.vehicles, slot, Some(trip));
    } else {
        let next = traffic::allocated(traffic, trip);
        assert(next.vehicles.drop_last() =~= traffic.vehicles);
    }
}

/// The largest number of vehicles on the roads at one time in a run. Within a
/// tick vehicles leave before others enter, so it is reached after some tick, or
/// at the start.
pub open spec fn busiest(model: SimModel, script: Seq<Seq<u8>>) -> nat
    decreases script.len(),
{
    let now = traffic::active(run(model, script).traffic.vehicles);
    if script.len() == 0 {
        now
    } else {
        larger(busiest(model, script.drop_last()), now)
    }
}

/// A run has as many slots as vehicles were ever on the roads at one time.
pub proof fn law_slots_match_the_busiest_time(
    sim: Simulation,
    seed: u64,
    params: ParamsModel,
    config: SimConfig,
    script: Seq<Seq<u8>>,
)
    requires
        sim.wf(),
        sim@ == traffic::start(seed, params, config),
        traffic::total_capacity(sim@.city.roads) <= usize::MAX,
    ensures
        run(sim@, script).traffic.vehicles.len() == busiest(sim@, script),
{
    lemma_run_slots(sim@, script);
}

proof fn lemma_run_slots(model: SimModel, script: Seq<Seq<u8>>)
    requires
        model.wf(),
        model.traffic.vehicles.len() == 0,
        traffic::total_capacity(model.city.roads) <= usize::MAX,
    ensures
        run(model, script).city == model.city,
        run(model, script).traffic.wf(model.city),
        run(model, script).traffic.vehicles.len() == busiest(model, script),
    decreases script.len(),
{
    if script.len() > 0 {
        lemma_run_slots(model, script.drop_last());
        let before = run(model, script.drop_last());
        let roads = model.city.roads.len() as int;
        traffic_laws::lemma_new_tick(before.traffic, model.city);
        lemma_move_slots(
            traffic::new_tick(before.traffic),
            model.city,
            traffic::phases_of(script.last()),
            roads,
        );
        lemma_spawn_slots(
            before.after_moves(script.last()),
            before.words,
            model.city,
            before.config,
            roads,
        );
    }
}

/// Moves add no slot, and bring no vehicle into the city.
pub proof fn lemma_move_slots(start: Traffic, city: CityModel, phases: Seq<Phase>, count: int)
    requires
        city.wf(),
        start.wf(city),
        0 <= count <= city.roads.len(),
    ensures
        ({
            let now = traffic::process_roads(start, city, phases, count);
            &&& now.wf(city)
            &&& now.vehicles.len() == start.vehicles.len()
        }),
    decreases count,
{
    if count > 0 {
        lemma_move_slots(start, city, phases, count - 1);
        let before = traffic::process_roads(start, city, phases, count - 1);
        traffic_laws::lemma_process_road(before, city, phases, count - 1);
        if before.queues[count - 1].len() > 0 {
            traffic_laws::lemma_queue_entry(before, city, count - 1, 0);
        }
    }
}

/// New vehicles take the free slots first.
proof fn lemma_spawn_slots(
    start: Traffic,
    words: Map<nat, u32>,
    city: CityModel,
    config: SimConfig,
    count: int,
)
    requires
        city.wf(),
        start.wf(city),
        traffic::total_capacity(city.roads) <= usize::MAX,
        0 <= count <= city.roads.len(),
    ensures
        ({
            let now = traffic::spawn_on_roads(start, words, city, config, count).0;
            &&& now.wf(city)
            &&& traffic::active(start.vehicles) <= traffic::active(now.vehicles)
            &&& now.vehicles.len() == larger(
                start.vehicles.len(),
                traffic::active(now.vehicles),
            )
        }),
    decreases count,
{
    if count > 0 {
        lemma_spawn_slots(start, words, city, config, count - 1);
        let (before, rest) = traffic::spawn_on_roads(start, words, city, config, count - 1);
        let r = count - 1;
        let chance = traffic::spawn_chance(city.roads[r], config);
        if before.queues[r].len() < city.roads[r].capacity && random::hits(rest, chance) {
            let drawn = random::after_chance(rest, chance);
            let route = traffic::drawn_route(drawn, city, r).0;
            traffic_laws::lemma_drawn_route(drawn, city, r);
            traffic_laws::lemma_queued_capacity(before.queues, city.roads);
            traffic_laws::lemma_entered(before, city, r, route);
            lemma_allocated_count(before, traffic::fresh(route));
        }
    }
}

/// The vehicles on the roads are exactly the slots in use, and no road holds
/// more than its capacity.
pub proof fn law_roads_hold_the_vehicles(model: SimModel)
    requires
        model.wf(),
    ensures
        traffic::active(model.traffic.vehicles) == traffic::queued(model.traffic.queues),
        forall|r: int|
            0 <= r < model.city.roads.len() ==> (#[trigger] model.traffic.queues[r]).len()
                <= model.city.roads[r].capacity,
{
}

/// On a red signal no vehicle leaves the road, and each one on it waits.
pub proof fn law_red_holds_a_road(
    traffic: Traffic,
    city: CityModel,
    phases: Seq<Phase>,
    r: int,
)
    requires
        traffic.wf(city),
        0 <= r < city.roads.len(),
        !traffic::green(phases[city.roads[r].to as int], city.roads[r].phase_group),
    ensures
        ({
            let next = traffic::process_road(traffic, city, phases, r);
            &&& next.queues == traffic.queues
            &&& next.completed == traffic.completed
            &&& next.stalls == traffic.stalls
            &&& forall|i: int|
                0 <= i < traffic.queues[r].len() ==> {
                    let slot = (#[trigger] traffic.queues[r][i]) as int;
                    traffic::trip(next, slot) == traffic::held(traffic::trip(traffic, slot))
                }
        }),
{
    let next = traffic::process_road(traffic, city, phases, r);
    assert forall|i: int| 0 <= i < traffic.queues[r].len() implies {
        let slot = (#[trigger] traffic.queues[r][i]) as int;
        traffic::trip(next, slot) == traffic::held(traffic::trip(traffic, slot))
    } by {
        traffic_laws::lemma_queue_entry(traffic, city, r, i);
        assert(traffic.queues[r].contains(traffic.queues[r][i]));
    }
}

/// Exactly one of the two phases lets a phase group through.
pub proof fn law_phases_exclude_each_other(group: PhaseGroup)
    ensures
        traffic::green(Phase::NorthSouthGreen, group) != traffic::green(
            Phase::EastWestGreen,
            group,
        ),
{
}

/// A vehicle that stands still for `ticks` more ticks.
pub open spec fn held_for(trip: Trip, ticks: nat) -> Trip
    decreases ticks,
{
    if ticks == 0 {
        trip
    } else {
        traffic::held(held_for(trip, (ticks - 1) as nat))
    }
}

/// A stop counts as one stall, however long it lasts, and only once the vehicle
/// moves again; a vehicle that does not stop on a road does not stall there.
pub proof fn law_a_stop_is_one_stall(trip: Trip, ticks: nat)
    ensures
        held_for(trip, ticks).stall_count == trip.stall_count,
        held_for(trip, ticks).wait_ticks == trip.wait_ticks + ticks,
        ticks > 0 ==> traffic::moved(held_for(trip, ticks)).stall_count == trip.stall_count + 1,
        traffic::moved(traffic::moved(trip)).stall_count == traffic::moved(trip).stall_count,
        traffic::moved(trip).wait_ticks == 0,
    decreases ticks,
{
    if ticks > 0 {
        law_a_stop_is_one_stall(trip, (ticks - 1) as nat);
    }
}

/// In a tick on a road at most one vehicle leaves it, the first; it leaves the
/// city or joins the end of its next road. The others keep their order.
pub proof fn law_one_vehicle_leaves_a_road(
    traffic: Traffic,
    city: CityModel,
    phases: Seq<Phase>,
    r: int,
    s: int,
)
    requires
        city.wf(),
        traffic.wf(city),
        0 <= r < city.roads.len(),
        0 <= s < city.roads.len(),
    ensures
        ({
            let next = traffic::process_road(traffic, city, phases, r);
            let queue = traffic.queues[r];
            let leaves = traffic::green(
                phases[city.roads[r].to as int],
                city.roads[r].phase_group,
            ) && traffic::can_advance(traffic, city, r);
            &&& next.queues[r] == if leaves {
                queue.skip(1)
            } else {
                queue
            }
            &&& s != r ==> next.queues[s] == traffic.queues[s] || (leaves && next.queues[s]
                == traffic.queues[s].push(queue[0]) && traffic.queues[s].len()
                < city.roads[s].capacity)
        }),
{
    let queue = traffic.queues[r];
    if traffic::can_advance(traffic, city, r) {
        traffic_laws::lemma_queue_entry(traffic, city, r, 0);
        let first = traffic::trip(traffic, queue[0] as int);
        traffic_laws::lemma_next_road(city, first);
        assert(queue.skip(1) =~= queue.subrange(1, queue.len() as int));
    }
}

/// The queue `now` came from the queue `before`: `joined` came to the end of it,
/// and the first `gone` vehicles left.
pub open spec fn flowed(
    before: Seq<usize>,
    joined: Seq<usize>,
    gone: int,
    now: Seq<usize>,
) -> bool {
    &&& 0 <= gone <= before.len() + joined.len()
    &&& now == (before + joined).skip(gone)
}

/// In a tick a queue keeps its order: vehicles join it only at its end, and at
/// most one leaves it, the first, and only on a green signal.
pub proof fn law_queues_keep_their_order(model: SimModel, actions: Seq<u8>, r: int)
    requires
        model.wf(),
        0 <= r < model.city.roads.len(),
    ensures
        exists|joined: Seq<usize>, gone: int| #[trigger]
            flowed(
                model.traffic.queues[r],
                joined,
                gone,
                model.after_step(actions).traffic.queues[r],
            ) && gone <= 1 && (gone == 1 ==> traffic::green(
                traffic::phases_of(actions)[model.city.roads[r].to as int],
                model.city.roads[r].phase_group,
            )),
{
    let roads = model.city.roads.len() as int;
    let start = traffic::new_tick(model.traffic);
    let phases = traffic::phases_of(actions);
    traffic_laws::lemma_new_tick(model.traffic, model.city);
    let (joined, gone) = lemma_moves(start, model.city, phases, roads, r);
    let more = lemma_spawns(
        model.after_moves(actions),
        model.words,
        model.city,
        model.config,
        roads,
        r,
    );
    let before = model.traffic.queues[r];
    assert((before + joined).skip(gone) + more =~= (before + (joined + more)).skip(gone));
    assert(flowed(before, joined + more, gone, model.after_step(actions).traffic.queues[r]));
}

/// What the moves on the first `count` roads do to the queue of road `r`, and
/// to the number of vehicles.
proof fn lemma_moves(
    start: Traffic,
    city: CityModel,
    phases: Seq<Phase>,
    count: int,
    r: int,
) -> (flow: (Seq<usize>, int))
    requires
        city.wf(),
        start.wf(city),
        0 <= r < city.roads.len(),
        0 <= count <= city.roads.len(),
    ensures
        ({
            let now = traffic::process_roads(start, city, phases, count);
            &&& now.wf(city)
            &&& flowed(start.queues[r], flow.0, flow.1, now.queues[r])
            &&& flow.1 <= 1
            &&& r >= count ==> flow.1 == 0
            &&& flow.1 == 1 ==> traffic::green(
                phases[city.roads[r].to as int],
                city.roads[r].phase_group,
            )
            &&& now.completed + traffic::queued(now.queues) == start.completed + traffic::queued(
                start.queues,
            )
        }),
    decreases count,
{
    if count == 0 {
        let none: Seq<usize> = Seq::empty();
        assert(start.queues[r] =~= (start.queues[r] + none).skip(0));
        (none, 0int)
    } else {
        let (joined, gone) = lemma_moves(start, city, phases, count - 1, r);
        let before = traffic::process_roads(start, city, phases, count - 1);
        let now = traffic::process_road(before, city, phases, count - 1);
        traffic_laws::lemma_process_road(before, city, phases, count - 1);
        law_one_vehicle_leaves_a_road(before, city, phases, count - 1, r);
        lemma_none_lost(before, city, phases, count - 1);
        let all = start.queues[r] + joined;
        if now.queues[r] == before.queues[r] {
            (joined, gone)
        } else if r == count - 1 {
            assert(all.skip(0) =~= all);
            (joined, 1int)
        } else {
            let slot = before.queues[count - 1][0];
            assert(all.skip(gone).push(slot) =~= (start.queues[r] + joined.push(slot)).skip(gone));
            (joined.push(slot), gone)
        }
    }
}

/// A tick on one road loses no vehicle and makes none: each one is on a road
/// still, or has completed its route.
proof fn lemma_none_lost(traffic: Traffic, city: CityModel, phases: Seq<Phase>, r: int)
    requires
        city.wf(),
        traffic.wf(city),
        0 <= r < city.roads.len(),
    ensures
        ({
            let next = traffic::process_road(traffic, city, phases, r);
            next.completed + traffic::queued(next.queues) == traffic.completed + traffic::queued(
                traffic.queues,
            )
        }),
{
    let road = city.roads[r];
    if traffic::green(phases[road.to as int], road.phase_group) && traffic::can_advance(
        traffic,
        city,
        r,
    ) {
        traffic_laws::lemma_advance_count(traffic, city, r);
    }
}

/// What the new vehicles on the first `count` roads do to the queue of road
/// `r`, and to the number of vehicles.
proof fn lemma_spawns(
    start: Traffic,
    words: Map<nat, u32>,
    city: CityModel,
    config: SimConfig,
    count: int,
    r: int,
) -> (joined: Seq<usize>)
    requires
        start.queues.len() == city.roads.len(),
        0 <= r < city.roads.len(),
        0 <= count <= city.roads.len(),
    ensures
        ({
            let now = traffic::spawn_on_roads(start, words, city, config, count).0;
            &&& now.queues.len() == start.queues.len()
            &&& now.completed == start.completed
            &&& now.queues[r] == start.queues[r] + joined
            &&& joined.len() <= 1
            &&& r >= count ==> joined.len() == 0
            &&& traffic::queued(start.queues) <= traffic::queued(now.queues)
                <= traffic::queued(start.queues) + count
        }),
    decreases count,
{
    let none: Seq<usize> = Seq::empty();
    if count == 0 {
        assert(start.queues[r] =~= start.queues[r] + none);
        none
    } else {
        let joined = lemma_spawns(start, words, city, config, count - 1, r);
        let (before, rest) = traffic::spawn_on_roads(start, words, city, config, count - 1);
        let now = traffic::spawn_on_road(before, rest, city, config, count - 1).0;
        if now.queues == before.queues {
            joined
        } else {
            let queue = now.queues[count - 1];
            traffic_laws::lemma_queued_update(before.queues, count - 1, queue);
            if r == count - 1 {
                assert(joined =~= none);
                assert(start.queues[r] + none =~= start.queues[r]);
                assert(queue =~= start.queues[r] + seq![queue.last()]);
                seq![queue.last()]
            } else {
                joined
            }
        }
    }
}

/// No vehicle is lost and none comes from nowhere: after a tick the roads hold
/// those that they held before, without the ones that completed their route,
/// and at most one new vehicle for each road.
pub proof fn law_vehicles_are_conserved(model: SimModel, actions: Seq<u8>)
    requires
        model.wf(),
    ensures
        ({
            let next = model.after_step(actions);
            let stayed = traffic::active(model.traffic.vehicles) - next.traffic.completed;
            &&& 0 <= stayed
            &&& stayed == traffic::queued(model.after_moves(actions).queues)
            &&& stayed <= traffic::queued(next.traffic.queues) <= stayed + model.city.roads.len()
        }),
{
    let roads = model.city.roads.len() as int;
    if roads > 0 {
        let start = traffic::new_tick(model.traffic);
        traffic_laws::lemma_new_tick(model.traffic, model.city);
        let _ = lemma_moves(start, model.city, traffic::phases_of(actions), roads, 0);
        let _ = lemma_spawns(
            model.after_moves(actions),
            model.words,
            model.city,
            model.config,
            roads,
            0,
        );
    }
}

/// Whether there is a way on from the end of a road but straight back.
pub open spec fn has_way_on(city: CityModel, road: usize) -> bool {
    exists|r: usize| #[trigger]
        city.intersections[city.roads[road as int].to as int].outgoing.contains(r)
            && city.roads[r as int].to != city.roads[road as int].from
}

/// Whether no road leads on from the end of a road, not even back.
pub open spec fn ends_nowhere(city: CityModel, road: usize) -> bool {
    city.intersections[city.roads[road as int].to as int].outgoing.len() == 0
}

/// Whether a route turns back only where there is no other way on.
pub open spec fn turns_back_only_at_dead_ends(city: CityModel, route: Seq<usize>) -> bool {
    forall|i: int, j: int|
        #![trigger route[i], route[j]]
        0 <= i && i + 1 == j && j < route.len() && has_way_on(city, route[i])
            ==> city.roads[route[j] as int].to != city.roads[route[i] as int].from
}

/// A route starts on the road where the vehicle enters, each of its roads starts
/// where the one before it ends, and it turns back only where there is no other
/// way on. It has the drawn number of roads, from `MIN_ROUTE_HOPS` to
/// `MAX_ROUTE_HOPS`, unless it ends early, where no road leads on.
pub proof fn law_routes_lead_on(words: Map<nat, u32>, city: CityModel, start: int)
    requires
        city.wf(),
        0 <= start < city.roads.len(),
    ensures
        ({
            let route = traffic::drawn_route(words, city, start).0;
            let drawn = random::between(words, MIN_ROUTE_HOPS as int, MAX_ROUTE_HOPS as int);
            &&& traffic::is_route(city, route)
            &&& route[0] == start
            &&& turns_back_only_at_dead_ends(city, route)
            &&& MIN_ROUTE_HOPS <= drawn <= MAX_ROUTE_HOPS
            &&& route.len() <= drawn
            &&& route.len() < drawn ==> ends_nowhere(city, route.last())
        }),
{
    traffic_laws::lemma_drawn_route(words, city, start);
    let first = seq![start as usize];
    let drawn = random::between(words, MIN_ROUTE_HOPS as int, MAX_ROUTE_HOPS as int);
    assert(traffic::is_route(city, first)) by {
        reveal(traffic::is_route);
    }
    lemma_route_leads_on(
        random::after_between(words, MIN_ROUTE_HOPS as int, MAX_ROUTE_HOPS as int),
        city,
        first,
        drawn - 1,
    );
}

proof fn lemma_route_leads_on(
    words: Map<nat, u32>,
    city: CityModel,
    route: Seq<usize>,
    hops: int,
)
    requires
        city.wf(),
        traffic::is_route(city, route),
        0 <= hops,
        route.len() + hops <= MAX_ROUTE_HOPS,
        turns_back_only_at_dead_ends(city, route),
    ensures
        ({
            let full = traffic::extended_route(words, city, route, hops).0;
            &&& turns_back_only_at_dead_ends(city, full)
            &&& full.len() <= route.len() + hops
            &&& full.len() < route.len() + hops ==> ends_nowhere(city, full.last())
        }),
    decreases hops,
{
    if hops > 0 {
        let last = route.last();
        assert(last < city.roads.len()) by {
            reveal(traffic::is_route);
        }
        traffic_laws::lemma_choices(city, last);
        let pool = traffic::choices(city, last);
        if pool.len() > 0 {
            let next = pool[random::between(words, 0, pool.len() - 1)];
            traffic_laws::lemma_route_push(city, route, next);
            let longer = route.push(next);
            assert forall|i: int, j: int|
                #![trigger longer[i], longer[j]]
                0 <= i && i + 1 == j && j < longer.len() && has_way_on(
                    city,
                    longer[i],
                ) implies city.roads[longer[j] as int].to != city.roads[longer[i] as int].from by {
                if j < route.len() {
                    assert(longer[i] == route[i] && longer[j] == route[j]);
                } else {
                    assert(longer[i] == last && longer[j] == next);
                }
            }
            lemma_route_leads_on(
                random::after_between(words, 0, pool.len() - 1),
                city,
                longer,
                hops - 1,
            );
        }
    }
}

/// The sum of the rewards of the first `count` intersections.
pub open spec fn local_rewards(model: SimModel, count: int) -> int
    decreases count,
{
    if count <= 0 {
        0
    } else {
        local_rewards(model, count - 1) + traffic::local_reward(model, count - 1)
    }
}

/// The rewards of the intersections add up to the reward of the tick.
pub proof fn law_local_rewards_add_up(model: SimModel)
    requires
        model.wf(),
    ensures
        local_rewards(model, model.city.intersections.len() as int) == model.reward(),
{
    let count = model.city.intersections.len() as int;
    let waits = model.traffic.waits;
    let stalls = model.traffic.stalls;
    lemma_incoming_groups(model.city, waits);
    lemma_incoming_groups(model.city, stalls);
    lemma_local_rewards(model, count);
}

/// The lists of the roads that lead to each intersection.
spec fn incoming_lists(city: CityModel) -> Seq<Seq<usize>> {
    Seq::new(city.intersections.len(), |i: int| city.intersections[i].incoming)
}

/// The sum of the counts over the first `k` lists.
spec fn total_in(counts: Seq<nat>, lists: Seq<Seq<usize>>, k: int) -> nat
    decreases k,
{
    if k <= 0 {
        0
    } else {
        total_in(counts, lists, k - 1) + traffic::total_over(counts, lists[k - 1])
    }
}

/// Whether the list `list` holds the places of key `key`, each once. It may hold
/// others, or leave some out, where nothing is counted.
spec fn is_group(counts: Seq<nat>, keys: Seq<int>, key: int, list: Seq<usize>) -> bool {
    &&& list.no_duplicates()
    &&& forall|i: int| 0 <= i < list.len() ==> (#[trigger] list[i]) < counts.len()
    &&& forall|v: int|
        #![trigger keys[v]]
        0 <= v < counts.len() ==> (list.contains(v as usize) <==> keys[v] == key) || counts[v] == 0
}

/// Where each count has one key, the sum over the lists of all keys is the sum
/// of the counts.
proof fn lemma_groups(counts: Seq<nat>, keys: Seq<int>, lists: Seq<Seq<usize>>)
    requires
        counts.len() <= usize::MAX,
        keys.len() == counts.len(),
        forall|v: int|
            0 <= v < keys.len() ==> 0 <= #[trigger] keys[v] < lists.len() || counts[v] == 0,
        forall|k: int| 0 <= k < lists.len() ==> is_group(counts, keys, k, #[trigger] lists[k]),
    ensures
        total_in(counts, lists, lists.len() as int) == traffic::total(counts),
{
    lemma_first_groups(counts, keys, lists, lists.len() as int);
    let all = below(counts, keys, lists.len() as int);
    assert forall|v: int| 0 <= v < counts.len() implies all[v] == counts[v] by {
        assert(0 <= keys[v] < lists.len() || counts[v] == 0);
    }
    assert(all =~= counts);
}

/// The counts of the keys below `k`, and 0 for the others.
spec fn below(counts: Seq<nat>, keys: Seq<int>, k: int) -> Seq<nat> {
    Seq::new(
        counts.len(),
        |v: int|
            if 0 <= keys[v] < k {
                counts[v]
            } else {
                0
            },
    )
}

/// The counts of the places in a list, and 0 for the others.
pub open spec fn listed(counts: Seq<nat>, list: Seq<usize>) -> Seq<nat> {
    Seq::new(
        counts.len(),
        |r: int|
            if list.contains(r as usize) {
                counts[r]
            } else {
                0
            },
    )
}

proof fn lemma_first_groups(counts: Seq<nat>, keys: Seq<int>, lists: Seq<Seq<usize>>, k: int)
    requires
        counts.len() <= usize::MAX,
        keys.len() == counts.len(),
        0 <= k <= lists.len(),
        forall|j: int| 0 <= j < lists.len() ==> is_group(counts, keys, j, #[trigger] lists[j]),
    ensures
        total_in(counts, lists, k) == traffic::total(below(counts, keys, k)),
    decreases k,
{
    if k == 0 {
        traffic_laws::lemma_total_bound(below(counts, keys, 0), 0);
        assert(0 * counts.len() == 0) by (nonlinear_arith);
    } else {
        lemma_first_groups(counts, keys, lists, k - 1);
        let list = lists[k - 1];
        assert(is_group(counts, keys, k - 1, list));
        lemma_total_listed(counts, list);
        let a = below(counts, keys, k - 1);
        let b = listed(counts, list);
        let c = below(counts, keys, k);
        assert forall|v: int| 0 <= v < c.len() implies #[trigger] c[v] == a[v] + b[v] by {
            assert((list.contains(v as usize) <==> keys[v] == k - 1) || counts[v] == 0);
        }
        lemma_total_sum(a, b, c);
    }
}

proof fn lemma_incoming_groups(city: CityModel, counts: Seq<nat>)
    requires
        city.wf(),
        counts.len() == city.roads.len(),
    ensures
        total_in(counts, incoming_lists(city), city.intersections.len() as int) == traffic::total(
            counts,
        ),
{
    let keys = Seq::new(counts.len(), |r: int| city.roads[r].to as int);
    let lists = incoming_lists(city);
    assert forall|v: int| 0 <= v < keys.len() implies 0 <= #[trigger] keys[v] < lists.len() by {
        assert(plan::sound_road(city.roads[v], v, city.sites()));
    }
    assert forall|i: int| 0 <= i < lists.len() implies is_group(
        counts,
        keys,
        i,
        #[trigger] lists[i],
    ) by {
        let list = lists[i];
        city_laws::law_lists_hold_exactly_the_roads(city, i);
        assert forall|k: int| 0 <= k < list.len() implies (#[trigger] list[k]) < counts.len() by {
            assert(list.contains(list[k]));
        }
        assert forall|v: int|
            #![trigger keys[v]]
            0 <= v < counts.len() implies (list.contains(v as usize) <==> keys[v] == i) by {
            assert(city.intersections[i].incoming.contains(v as usize) <==> city.roads[v].to == i);
        }
    }
    lemma_groups(counts, keys, lists);
}

proof fn lemma_local_rewards(model: SimModel, count: int)
    requires
        0 <= count <= model.city.intersections.len(),
    ensures
        local_rewards(model, count) == traffic::reward_of(
            total_in(model.traffic.waits, incoming_lists(model.city), count),
            total_in(model.traffic.stalls, incoming_lists(model.city), count),
            model.config,
        ),
    decreases count,
{
    if count > 0 {
        lemma_local_rewards(model, count - 1);
        let lists = incoming_lists(model.city);
        let w = total_in(model.traffic.waits, lists, count - 1);
        let s = total_in(model.traffic.stalls, lists, count - 1);
        let more_w = traffic::total_over(model.traffic.waits, lists[count - 1]);
        let more_s = traffic::total_over(model.traffic.stalls, lists[count - 1]);
        let penalty = model.config.stall_penalty;
        assert(local_rewards(model, count) == traffic::reward_of(w, s, model.config)
            + traffic::reward_of(more_w, more_s, model.config));
        assert(total_in(model.traffic.waits, lists, count) == w + more_w);
        assert(total_in(model.traffic.stalls, lists, count) == s + more_s);
        assert((s + more_s) * penalty == s * penalty + more_s * penalty) by (nonlinear_arith);
        assert(traffic::reward_of((w + more_w) as nat, (s + more_s) as nat, model.config)
            == traffic::reward_of(w, s, model.config) + traffic::reward_of(
            more_w,
            more_s,
            model.config,
        ));
    } else {
        assert(total_in(model.traffic.waits, incoming_lists(model.city), 0) == 0);
        assert(total_in(model.traffic.stalls, incoming_lists(model.city), 0) == 0);
        assert(traffic::reward_of(0, 0, model.config) == 0);
    }
}

pub proof fn lemma_total_listed(counts: Seq<nat>, list: Seq<usize>)
    requires
        counts.len() <= usize::MAX,
        forall|k: int| 0 <= k < list.len() ==> (#[trigger] list[k]) < counts.len(),
        list.no_duplicates(),
    ensures
        traffic::total(listed(counts, list)) == traffic::total_over(counts, list),
    decreases list.len(),
{
    if list.len() == 0 {
        traffic_laws::lemma_total_bound(listed(counts, list), 0);
        assert(0 * counts.len() == 0) by (nonlinear_arith);
    } else {
        let rest = list.drop_last();
        let last = list.last();
        lemma_total_listed(counts, rest);
        assert(list[list.len() - 1] < counts.len());
        assert(!rest.contains(last));
        assert forall|r: usize| list.contains(r) <==> rest.contains(r) || r == last by {
            if list.contains(r) && r != last {
                let k = list.index_of(r);
                assert(rest[k] == r);
            }
            if rest.contains(r) {
                assert(list[rest.index_of(r)] == r);
            }
            assert(list[list.len() - 1] == last);
        }
        assert(listed(counts, list) =~= listed(counts, rest).update(
            last as int,
            counts[last as int],
        ));
        traffic_laws::lemma_total_update(listed(counts, rest), last as int, counts[last as int]);
    }
}

/// Sums add up place by place.
proof fn lemma_total_sum(a: Seq<nat>, b: Seq<nat>, c: Seq<nat>)
    requires
        a.len() == b.len() == c.len(),
        forall|r: int| 0 <= r < c.len() ==> #[trigger] c[r] == a[r] + b[r],
    ensures
        traffic::total(c) == traffic::total(a) + traffic::total(b),
    decreases c.len(),
{
    if c.len() > 0 {
        lemma_total_sum(a.drop_last(), b.drop_last(), c.drop_last());
    }
}

/// In the first 2^32 - 1 ticks every tick can be counted.
pub proof fn law_early_ticks_can_be_counted(sim: Simulation)
    requires
        sim.wf(),
    ensures
        sim@.tick < u32::MAX ==> sim@.can_tick(),
{
}

/// In a city of up to 2^24 roads the metrics and the stall count always fit.
pub proof fn law_counts_fit(sim: Simulation)
    requires
        sim.wf(),
        sim@.city.roads.len() <= 0x100_0000,
    ensures
        traffic::total_wait_ticks(sim@.traffic.vehicles) <= u64::MAX,
        traffic::stalls_this_tick(sim@.traffic) <= u32::MAX,
        traffic::total_stalls(sim@.traffic.vehicles) <= u32::MAX,
{
    let model = sim@;
    law_slots_are_reused(model, traffic::fresh(Seq::empty()));
    assert(model.traffic.vehicles.len() <= 0x1b00_0000);
    assert forall|v: int|
        #![trigger model.traffic.vehicles[v]]
        0 <= v < model.traffic.vehicles.len() && model.traffic.vehicles[v] is Some implies {
        &&& traffic::trip(model.traffic, v).wait_ticks <= u32::MAX
        &&& traffic::trip(model.traffic, v).stall_count < MAX_ROUTE_HOPS
    } by {
        reveal(Traffic::vehicles_are_queued);
        traffic_laws::lemma_next_road(model.city, traffic::trip(model.traffic, v));
    }
    lemma_vehicle_sums(model.traffic, model.traffic.vehicles.len() as int);
    let all = model.traffic.vehicles;
    assert(all.take(all.len() as int) =~= all);
    traffic_laws::lemma_total_bound(model.traffic.stalls, 1);
}

proof fn lemma_vehicle_sums(traffic: Traffic, k: int)
    requires
        0 <= k <= traffic.vehicles.len(),
        forall|v: int|
            #![trigger traffic.vehicles[v]]
            0 <= v < traffic.vehicles.len() && traffic.vehicles[v] is Some ==> {
                &&& traffic::trip(traffic, v).wait_ticks <= u32::MAX
                &&& traffic::trip(traffic, v).stall_count < MAX_ROUTE_HOPS
            },
    ensures
        traffic::total_wait_ticks(traffic.vehicles.take(k)) <= u32::MAX * k,
        traffic::total_stalls(traffic.vehicles.take(k)) <= 7 * k,
    decreases k,
{
    if k > 0 {
        lemma_vehicle_sums(traffic, k - 1);
        let part = traffic.vehicles.take(k);
        assert(part.drop_last() =~= traffic.vehicles.take(k - 1));
        assert(part.last() == traffic.vehicles[k - 1]);
    }
}

/// The vehicles that an observation shows at the first `count` intersections.
pub open spec fn seen_vehicles(obs: Seq<nat>, count: int) -> nat
    decreases count,
{
    if count <= 0 {
        0
    } else {
        let base = (count - 1) * OBS_PER_INTERSECTION;
        seen_vehicles(obs, count - 1) + obs[base] + obs[base + 1]
    }
}

/// The waits that an observation shows at the first `count` intersections.
pub open spec fn seen_waits(obs: Seq<nat>, count: int) -> nat
    decreases count,
{
    if count <= 0 {
        0
    } else {
        let base = (count - 1) * OBS_PER_INTERSECTION;
        seen_waits(obs, count - 1) + obs[base + 2] + obs[base + 3]
    }
}

/// Every vehicle is seen at exactly one intersection: the queues of an
/// observation add up to the vehicles in the network, and its waits to theirs.
pub proof fn law_every_vehicle_is_seen_once(model: SimModel)
    requires
        model.wf(),
    ensures
        seen_vehicles(traffic::observation(model), model.city.intersections.len() as int)
            == traffic::active(model.traffic.vehicles),
        seen_waits(traffic::observation(model), model.city.intersections.len() as int)
            == traffic::total_wait_ticks(model.traffic.vehicles),
{
    let city = model.city;
    let lens = queue_lens(model.traffic);
    let waits = queue_waits(model.traffic);
    lemma_seen(model, city.intersections.len() as int);
    lemma_incoming_groups(city, lens);
    lemma_incoming_groups(city, waits);
    lemma_queue_lens(model.traffic, city.roads.len() as int);
    assert(lens.take(city.roads.len() as int) =~= lens);
    assert(model.traffic.queues.take(city.roads.len() as int) =~= model.traffic.queues);
    lemma_queue_waits(model.traffic, city);
}

/// The number of vehicles on each road.
spec fn queue_lens(traffic: Traffic) -> Seq<nat> {
    Seq::new(traffic.queues.len(), |r: int| traffic.queues[r].len())
}

/// The ticks that the vehicles on each road have waited.
spec fn queue_waits(traffic: Traffic) -> Seq<nat> {
    Seq::new(traffic.queues.len(), |r: int| traffic::queue_wait(traffic, traffic.queues[r]))
}

/// The ticks that each vehicle has waited, 0 for a free slot.
spec fn slot_waits(traffic: Traffic) -> Seq<nat> {
    Seq::new(
        traffic.vehicles.len(),
        |v: int|
            match traffic.vehicles[v] {
                Some(trip) => trip.wait_ticks,
                None => 0,
            },
    )
}

proof fn lemma_seen(model: SimModel, count: int)
    requires
        model.wf(),
        0 <= count <= model.city.intersections.len(),
    ensures
        seen_vehicles(traffic::observation(model), count) == total_in(
            queue_lens(model.traffic),
            incoming_lists(model.city),
            count,
        ),
        seen_waits(traffic::observation(model), count) == total_in(
            queue_waits(model.traffic),
            incoming_lists(model.city),
            count,
        ),
    decreases count,
{
    if count > 0 {
        lemma_seen(model, count - 1);
        law_observation_has_a_fixed_width(model);
        let i = count - 1;
        let list = model.city.intersections[i].incoming;
        city_laws::law_lists_hold_exactly_the_roads(model.city, i);
        assert forall|k: int| 0 <= k < list.len() implies (#[trigger] list[k])
            < model.city.roads.len() by {
            assert(list.contains(list[k]));
        }
        lemma_approaches(model, list);
        let obs = traffic::observation(model);
        let base = i * OBS_PER_INTERSECTION;
        assert(obs[base + 0] == traffic::observed(model, i, 0));
        assert(obs[base + 1] == traffic::observed(model, i, 1));
        assert(obs[base + 2] == traffic::observed(model, i, 2));
        assert(obs[base + 3] == traffic::observed(model, i, 3));
    }
}

/// Each road of a list is in one of the two phase groups.
proof fn lemma_approaches(model: SimModel, list: Seq<usize>)
    requires
        model.traffic.queues.len() == model.city.roads.len(),
        forall|k: int| 0 <= k < list.len() ==> (#[trigger] list[k]) < model.city.roads.len(),
    ensures
        traffic::approach_queue(model, list, PhaseGroup::NorthSouth) + traffic::approach_queue(
            model,
            list,
            PhaseGroup::EastWest,
        ) == traffic::total_over(queue_lens(model.traffic), list),
        traffic::approach_wait(model, list, PhaseGroup::NorthSouth) + traffic::approach_wait(
            model,
            list,
            PhaseGroup::EastWest,
        ) == traffic::total_over(queue_waits(model.traffic), list),
    decreases list.len(),
{
    if list.len() > 0 {
        let rest = list.drop_last();
        assert forall|k: int| 0 <= k < rest.len() implies (#[trigger] rest[k])
            < model.city.roads.len() by {
            assert(list[k] < model.city.roads.len());
        }
        lemma_approaches(model, rest);
        assert(list[list.len() - 1] < model.city.roads.len());
    }
}

proof fn lemma_queue_lens(traffic: Traffic, k: int)
    requires
        0 <= k <= traffic.queues.len(),
    ensures
        traffic::total(queue_lens(traffic).take(k)) == traffic::queued(traffic.queues.take(k)),
    decreases k,
{
    if k > 0 {
        lemma_queue_lens(traffic, k - 1);
        traffic_laws::lemma_total_take(queue_lens(traffic), k - 1);
        assert(traffic.queues.take(k).drop_last() =~= traffic.queues.take(k - 1));
    }
}

/// The waits on the roads are the waits of the vehicles.
proof fn lemma_queue_waits(traffic: Traffic, city: CityModel)
    requires
        city.wf(),
        traffic.wf(city),
    ensures
        traffic::total(queue_waits(traffic)) == traffic::total_wait_ticks(traffic.vehicles),
{
    let counts = slot_waits(traffic);
    let keys = Seq::new(
        traffic.vehicles.len(),
        |v: int| traffic::road_of(traffic::trip(traffic, v)) as int,
    );
    assert forall|v: int| 0 <= v < keys.len() implies 0 <= #[trigger] keys[v]
        < traffic.queues.len() || counts[v] == 0 by {
        if traffic.vehicles[v] is Some {
            reveal(Traffic::vehicles_are_queued);
            traffic_laws::lemma_next_road(city, traffic::trip(traffic, v));
        }
    }
    assert forall|r: int| 0 <= r < traffic.queues.len() implies is_group(
        counts,
        keys,
        r,
        #[trigger] traffic.queues[r],
    ) by {
        let queue = traffic.queues[r];
        traffic_laws::lemma_queue_unique(traffic, city, r);
        assert forall|i: int| 0 <= i < queue.len() implies (#[trigger] queue[i])
            < counts.len() by {
            traffic_laws::lemma_queue_entry(traffic, city, r, i);
        }
        assert forall|v: int|
            #![trigger keys[v]]
            0 <= v < counts.len() implies (queue.contains(v as usize) <==> keys[v] == r)
            || counts[v] == 0 by {
            if traffic.vehicles[v] is Some {
                reveal(Traffic::vehicles_are_queued);
                if queue.contains(v as usize) {
                    traffic_laws::lemma_queue_entry(traffic, city, r, queue.index_of(v as usize));
                }
            }
        }
    }
    lemma_groups(counts, keys, traffic.queues);
    lemma_slot_waits(traffic, traffic.vehicles.len() as int);
    assert(counts.take(traffic.vehicles.len() as int) =~= counts);
    assert(traffic.vehicles.take(traffic.vehicles.len() as int) =~= traffic.vehicles);
    lemma_waits_by_road(traffic, city, traffic.queues.len() as int);
    assert(queue_waits(traffic).take(traffic.queues.len() as int) =~= queue_waits(traffic));
}

proof fn lemma_slot_waits(traffic: Traffic, k: int)
    requires
        0 <= k <= traffic.vehicles.len(),
    ensures
        traffic::total(slot_waits(traffic).take(k)) == traffic::total_wait_ticks(
            traffic.vehicles.take(k),
        ),
    decreases k,
{
    if k > 0 {
        lemma_slot_waits(traffic, k - 1);
        traffic_laws::lemma_total_take(slot_waits(traffic), k - 1);
        assert(traffic.vehicles.take(k).drop_last() =~= traffic.vehicles.take(k - 1));
    }
}

proof fn lemma_waits_by_road(traffic: Traffic, city: CityModel, k: int)
    requires
        traffic.wf(city),
        0 <= k <= traffic.queues.len(),
    ensures
        traffic::total(queue_waits(traffic).take(k)) == total_in(
            slot_waits(traffic),
            traffic.queues,
            k,
        ),
    decreases k,
{
    if k > 0 {
        lemma_waits_by_road(traffic, city, k - 1);
        traffic_laws::lemma_total_take(queue_waits(traffic), k - 1);
        let queue = traffic.queues[k - 1];
        assert forall|i: int| 0 <= i < queue.len() implies (#[trigger] queue[i])
            < traffic.vehicles.len() && traffic.vehicles[queue[i] as int] is Some by {
            traffic_laws::lemma_queue_entry(traffic, city, k - 1, i);
        }
        lemma_queue_wait(traffic, queue);
    } else {
        assert(queue_waits(traffic).take(0).len() == 0);
    }
}

proof fn lemma_queue_wait(traffic: Traffic, queue: Seq<usize>)
    requires
        forall|i: int|
            0 <= i < queue.len() ==> (#[trigger] queue[i]) < traffic.vehicles.len()
                && traffic.vehicles[queue[i] as int] is Some,
    ensures
        traffic::queue_wait(traffic, queue) == traffic::total_over(slot_waits(traffic), queue),
    decreases queue.len(),
{
    if queue.len() > 0 {
        let rest = queue.drop_last();
        assert forall|i: int| 0 <= i < rest.len() implies (#[trigger] rest[i])
            < traffic.vehicles.len() && traffic.vehicles[rest[i] as int] is Some by {
            assert(rest[i] == queue[i]);
        }
        lemma_queue_wait(traffic, rest);
        let last = queue[queue.len() - 1];
        assert(traffic.vehicles[last as int] is Some);
    }
}

} // verus!
