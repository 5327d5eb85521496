//! What each step of a tick does to the vehicles, the queues and the counts.

use vstd::prelude::*;

use crate::city::{CityModel, ParamsModel, PhaseGroup};
use crate::city_laws;
use crate::plan;
use crate::random;
use crate::sim::{Phase, SimConfig, OBS_PER_INTERSECTION};
use crate::sim_laws;
use crate::traffic;
use crate::traffic::{SimModel, Traffic, Trip};
use crate::traffic_laws;

verus! {

/// Each signal takes the phase of its own action: north-south green exactly
/// where that action is 0. Field 4 of its observation shows it.
pub proof fn law_each_signal_follows_its_action(model: SimModel, actions: Seq<u8>, i: int)
    requires
        actions.len() == model.city.intersections.len(),
        0 <= i < actions.len(),
    ensures
        ({
            let next = model.after_step(actions);
            &&& next.phases.len() == actions.len()
            &&& next.phases[i] == Phase::NorthSouthGreen <==> actions[i] == 0
            &&& next.phases[i] == Phase::EastWestGreen <==> actions[i] != 0
            &&& traffic::observation(next)[6 * i + 4] == if actions[i] == 0 {
                0nat
            } else {
                1
            }
        }),
{
    sim_laws::law_observation_has_a_fixed_width(model.after_step(actions));
    let next = model.after_step(actions);
    assert(traffic::observation(next)[i * OBS_PER_INTERSECTION + 4] == traffic::observed(
        next,
        i,
        4,
    ));
}

/// Two sets of actions that agree at an intersection give it the same phase,
/// whatever they are elsewhere.
pub proof fn law_a_signal_ignores_other_actions(
    model: SimModel,
    a: Seq<u8>,
    b: Seq<u8>,
    i: int,
)
    requires
        0 <= i < a.len(),
        0 <= i < b.len(),
    ensures
        a[i] == b[i] ==> model.after_step(a).phases[i] == model.after_step(b).phases[i],
        a[i] == 0 && b[i] != 0 ==> model.after_step(a).phases[i] != model.after_step(b).phases[i],
{
}

/// North-south green lets the north-south group through and no other, and
/// east-west green the east-west group and no other.
pub proof fn law_green_is_for_its_own_group()
    ensures
        traffic::green(Phase::NorthSouthGreen, PhaseGroup::NorthSouth),
        traffic::green(Phase::EastWestGreen, PhaseGroup::EastWest),
        !traffic::green(Phase::NorthSouthGreen, PhaseGroup::EastWest),
        !traffic::green(Phase::EastWestGreen, PhaseGroup::NorthSouth),
{
}

/// A tick on a road, vehicle by vehicle and count by count. A vehicle leaves the
/// road where its signal is green, a vehicle is on it, and the first one is on the
/// last road of its route or its next road has room. The first vehicle leaves: from
/// the last road of its route out of the city, which empties its slot and counts it
/// as completed, and otherwise to the end of the queue of its next road. A vehicle
/// that moves on and had stopped has one more stall. The stalls of the road count a
/// vehicle that leaves and had stopped, whether it completes its route or not. The
/// vehicles then on the road wait: each has one more tick of wait and has stopped,
/// and the waits of the road count them. Nothing else changes.
pub proof fn law_tick_on_a_road(
    traffic: Traffic,
    city: CityModel,
    phases: Seq<Phase>,
    r: int,
)
    requires
        city.wf(),
        traffic.wf(city),
        0 <= r < city.roads.len(),
    ensures
        ({
            let next = traffic::process_road(traffic, city, phases, r);
            let queue = traffic.queues[r];
            let slot = queue[0];
            let first = traffic.vehicles[slot as int]->0;
            let green = match city.roads[r].phase_group {
                PhaseGroup::NorthSouth => phases[city.roads[r].to as int]
                    == Phase::NorthSouthGreen,
                PhaseGroup::EastWest => phases[city.roads[r].to as int] == Phase::EastWestGreen,
            };
            let done = first.route_pos + 1 == first.route.len();
            let onto = first.route[first.route_pos as int + 1] as int;
            let leaves = green && queue.len() > 0 && (done || traffic.queues[onto].len()
                < city.roads[onto].capacity);
            &&& !leaves ==> {
                &&& next.queues == traffic.queues
                &&& next.free_slots == traffic.free_slots
                &&& next.completed == traffic.completed
                &&& next.stalls == traffic.stalls
            }
            &&& leaves && done ==> {
                &&& next.queues == traffic.queues.update(r, queue.skip(1))
                &&& next.vehicles[slot as int] is None
                &&& next.free_slots == traffic.free_slots.push(slot)
                &&& next.completed == traffic.completed + 1
            }
            &&& leaves && !done ==> {
                &&& next.queues == traffic.queues.update(r, queue.skip(1)).update(
                    onto,
                    traffic.queues[onto].push(slot),
                )
                &&& next.vehicles[slot as int] == Some(
                    Trip {
                        route: first.route,
                        route_pos: first.route_pos + 1,
                        wait_ticks: 0,
                        is_stopped: false,
                        stall_count: if first.is_stopped {
                            first.stall_count + 1
                        } else {
                            first.stall_count
                        },
                    },
                )
                &&& next.free_slots == traffic.free_slots
                &&& next.completed == traffic.completed
            }
            &&& leaves ==> next.stalls == traffic.stalls.update(
                r,
                traffic.stalls[r] + if first.is_stopped {
                    1nat
                } else {
                    0
                },
            )
            &&& next.waits == traffic.waits.update(r, traffic.waits[r] + next.queues[r].len())
            &&& next.vehicles.len() == traffic.vehicles.len()
            &&& forall|v: usize|
                #![trigger next.queues[r].contains(v)]
                next.queues[r].contains(v) ==> {
                    let before = traffic.vehicles[v as int]->0;
                    &&& traffic.vehicles[v as int] is Some
                    &&& next.vehicles[v as int] == Some(
                        Trip {
                            route: before.route,
                            route_pos: before.route_pos,
                            wait_ticks: before.wait_ticks + 1,
                            is_stopped: true,
                            stall_count: before.stall_count,
                        },
                    )
                }
            &&& forall|v: usize|
                #![trigger queue.contains(v)]
                v < traffic.vehicles.len() && !queue.contains(v) ==> next.vehicles[v as int]
                    == traffic.vehicles[v as int]
        }),
{
    let next = traffic::process_road(traffic, city, phases, r);
    let queue = traffic.queues[r];
    traffic_laws::lemma_queue_unique(traffic, city, r);
    if queue.len() > 0 {
        traffic_laws::lemma_queue_entry(traffic, city, r, 0);
        let slot = queue[0];
        let first = traffic::trip(traffic, slot as int);
        traffic_laws::lemma_next_road(city, first);
        assert(queue.subrange(1, queue.len() as int) =~= queue.skip(1));
    }
    let leaves = traffic::green(
        phases[city.roads[r].to as int],
        city.roads[r].phase_group,
    ) && traffic::can_advance(traffic, city, r);
    let mid = if leaves {
        traffic::advance(traffic, r)
    } else {
        traffic
    };
    assert(next == traffic::hold_road(mid, r));
    if leaves {
        assert(mid.queues[r] == queue.skip(1));
        assert(!queue.skip(1).contains(queue[0])) by {
            if queue.skip(1).contains(queue[0]) {
                let i = queue.skip(1).index_of(queue[0]);
                assert(queue[i + 1] == queue[0]);
            }
        }
    }
    assert forall|v: usize|
        #![trigger next.queues[r].contains(v)]
        next.queues[r].contains(v) implies {
        let before = traffic.vehicles[v as int]->0;
        &&& traffic.vehicles[v as int] is Some
        &&& next.vehicles[v as int] == Some(
            Trip {
                route: before.route,
                route_pos: before.route_pos,
                wait_ticks: before.wait_ticks + 1,
                is_stopped: true,
                stall_count: before.stall_count,
            },
        )
    } by {
        let i = next.queues[r].index_of(v);
        if leaves {
            assert(queue[i + 1] == v);
            traffic_laws::lemma_queue_entry(traffic, city, r, i + 1);
        } else {
            traffic_laws::lemma_queue_entry(traffic, city, r, i);
        }
        assert(mid.vehicles[v as int] == traffic.vehicles[v as int]);
    }
    assert forall|v: usize|
        #![trigger queue.contains(v)]
        v < traffic.vehicles.len() && !queue.contains(v) implies next.vehicles[v as int]
        == traffic.vehicles[v as int] by {
        if queue.len() > 0 {
            assert(queue.contains(queue[0]));
        }
        if leaves && queue.skip(1).contains(v) {
            let i = queue.skip(1).index_of(v);
            assert(queue[i + 1] == v);
        }
        assert(mid.vehicles[v as int] == traffic.vehicles[v as int]);
        assert(!mid.queues[r].contains(v));
    }
    if leaves {
        let slot = queue[0];
        assert(!mid.queues[r].contains(slot));
        assert(next.vehicles[slot as int] == mid.vehicles[slot as int]);
    }
}

/// In a tick the counts start at 0, and every road has its turn, in the order of
/// their numbers, under the phases of this tick's actions.
pub proof fn law_every_road_has_its_turn(
    model: SimModel,
    actions: Seq<u8>,
    start: Traffic,
    phases: Seq<Phase>,
    k: int,
)
    requires
        0 <= k,
        start.completed == 0,
        start.waits == Seq::new(model.traffic.waits.len(), |r: int| 0nat),
        start.stalls == Seq::new(model.traffic.stalls.len(), |r: int| 0nat),
        start.queues == model.traffic.queues,
        start.vehicles == model.traffic.vehicles,
        start.free_slots == model.traffic.free_slots,
        phases.len() == actions.len(),
        forall|i: int|
            0 <= i < actions.len() ==> (#[trigger] phases[i] == Phase::NorthSouthGreen
                <==> actions[i] == 0),
    ensures
        traffic::process_roads(start, model.city, phases, 0) == start,
        traffic::process_roads(start, model.city, phases, k + 1) == traffic::process_road(
            traffic::process_roads(start, model.city, phases, k),
            model.city,
            phases,
            k,
        ),
        model.after_moves(actions) == traffic::process_roads(
            start,
            model.city,
            phases,
            model.city.roads.len() as int,
        ),
        model.after_step(actions).phases == phases,
{
    assert(start.waits =~= traffic::new_tick(model.traffic).waits);
    assert(start.stalls =~= traffic::new_tick(model.traffic).stalls);
    let own = traffic::phases_of(actions);
    assert forall|i: int| 0 <= i < actions.len() implies own[i] == phases[i] by {
        assert(phases[i] == Phase::NorthSouthGreen <==> actions[i] == 0);
    }
    assert(own =~= phases);
}

/// The stalls of a road in a tick are 1 exactly where a vehicle left it in its
/// turn, on to another road or out of the city, that had stopped; and its waits
/// are the vehicles that were on it after its turn.
pub proof fn law_counts_of_a_road(model: SimModel, actions: Seq<u8>, r: int)
    requires
        model.wf(),
        actions.len() == model.city.intersections.len(),
        0 <= r < model.city.roads.len(),
    ensures
        ({
            let phases = model.after_step(actions).phases;
            let start = traffic::new_tick(model.traffic);
            let before = traffic::process_roads(start, model.city, phases, r);
            let after = traffic::process_roads(start, model.city, phases, r + 1);
            let next = model.after_step(actions).traffic;
            let first = before.vehicles[before.queues[r][0] as int]->0;
            let green = match model.city.roads[r].phase_group {
                PhaseGroup::NorthSouth => actions[model.city.roads[r].to as int] == 0,
                PhaseGroup::EastWest => actions[model.city.roads[r].to as int] != 0,
            };
            let done = first.route_pos + 1 == first.route.len();
            let onto = first.route[first.route_pos as int + 1] as int;
            let leaves = green && before.queues[r].len() > 0 && (done
                || before.queues[onto].len() < model.city.roads[onto].capacity);
            &&& leaves <==> after.queues[r].len() < before.queues[r].len()
            &&& next.stalls[r] == if leaves && first.is_stopped {
                1nat
            } else {
                0
            }
            &&& next.waits[r] == after.queues[r].len()
        }),
{
    let phases = model.after_step(actions).phases;
    let start = traffic::new_tick(model.traffic);
    let city = model.city;
    let count = city.roads.len() as int;
    traffic_laws::lemma_new_tick(model.traffic, city);
    lemma_counts_untouched(start, city, phases, r, 0, r);
    assert(plan::sound_road(city.roads[r], r, city.sites()));
    law_each_signal_follows_its_action(model, actions, city.roads[r].to as int);
    let before = traffic::process_roads(start, city, phases, r);
    law_tick_on_a_road(before, city, phases, r);
    if before.queues[r].len() > 0 {
        traffic_laws::lemma_queue_entry(before, city, r, 0);
        traffic_laws::lemma_next_road(
            city,
            before.vehicles[before.queues[r][0] as int]->0,
        );
    }
    lemma_counts_untouched(start, city, phases, r, r + 1, count);
    lemma_spawn_keeps_counts(
        model.after_moves(actions),
        model.words,
        city,
        model.config,
        count,
    );
}

/// The turns of other roads do not touch the counts of road `r`.
proof fn lemma_counts_untouched(
    start: Traffic,
    city: CityModel,
    phases: Seq<Phase>,
    r: int,
    low: int,
    high: int,
)
    requires
        city.wf(),
        start.wf(city),
        0 <= r < city.roads.len(),
        0 <= low <= high <= city.roads.len(),
        high <= r || r < low,
    ensures
        traffic::process_roads(start, city, phases, low).wf(city),
        traffic::process_roads(start, city, phases, high).wf(city),
        traffic::process_roads(start, city, phases, high).stalls[r] == traffic::process_roads(
            start,
            city,
            phases,
            low,
        ).stalls[r],
        traffic::process_roads(start, city, phases, high).waits[r] == traffic::process_roads(
            start,
            city,
            phases,
            low,
        ).waits[r],
    decreases high,
{
    sim_laws::lemma_move_slots(start, city, phases, low);
    if high > low {
        lemma_counts_untouched(start, city, phases, r, low, high - 1);
        let before = traffic::process_roads(start, city, phases, high - 1);
        law_tick_on_a_road(before, city, phases, high - 1);
        traffic_laws::lemma_process_road(before, city, phases, high - 1);
    }
}

proof fn lemma_spawn_keeps_counts(
    start: Traffic,
    words: Map<nat, u32>,
    city: CityModel,
    config: SimConfig,
    count: int,
)
    ensures
        ({
            let next = traffic::spawn_on_roads(start, words, city, config, count).0;
            &&& next.stalls == start.stalls
            &&& next.waits == start.waits
            &&& next.completed == start.completed
        }),
    decreases count,
{
    if count > 0 {
        lemma_spawn_keeps_counts(start, words, city, config, count - 1);
    }
}

/// The ways on from the end of a road are exactly the roads that start there, but
/// for those that lead straight back, unless all of them do; each is listed once,
/// in the order of their numbers.
pub proof fn law_ways_on(city: CityModel, last: usize)
    requires
        city.wf(),
        last < city.roads.len(),
    ensures
        ({
            let pool = traffic::choices(city, last);
            let end = city.roads[last as int].to;
            let start = city.roads[last as int].from;
            let onward = exists|s: int|
                0 <= s < city.roads.len() && (#[trigger] city.roads[s]).from == end
                    && city.roads[s].to != start;
            &&& forall|r: usize|
                pool.contains(r) <==> r < city.roads.len() && city.roads[r as int].from == end && (
                city.roads[r as int].to != start || !onward)
            &&& forall|i: int, j: int| 0 <= i < j < pool.len() ==> pool[i] < pool[j]
        }),
{
    let pool = traffic::choices(city, last);
    let end = city.roads[last as int].to;
    let start = city.roads[last as int].from;
    let onward = exists|s: int|
        0 <= s < city.roads.len() && (#[trigger] city.roads[s]).from == end && city.roads[s].to
            != start;
    assert(plan::sound_road(city.roads[last as int], last as int, city.sites()));
    city_laws::law_lists_hold_exactly_the_roads(city, end as int);
    let out = city.intersections[end as int].outgoing;
    let pred = traffic::leads_on(city, last);
    let some = out.filter(pred);
    lemma_filter_order(out, pred);
    if onward {
        let s = choose|s: int|
            0 <= s < city.roads.len() && (#[trigger] city.roads[s]).from == end && city.roads[s].to
                != start;
        assert(out.contains(s as usize));
        assert(pred(s as usize));
        assert(some.contains(s as usize));
    } else {
        if some.len() > 0 {
            assert(some.contains(some[0]));
            assert(city.roads[some[0] as int].to != start);
        }
    }
    assert forall|r: usize|
        pool.contains(r) <==> r < city.roads.len() && city.roads[r as int].from == end && (
        city.roads[r as int].to != start || !onward) by {
        if onward {
            assert(some.contains(r) <==> out.contains(r) && pred(r));
        }
    }
}

/// A filter keeps what meets it, in the same order.
proof fn lemma_filter_order(list: Seq<usize>, pred: spec_fn(usize) -> bool)
    requires
        forall|i: int, j: int| 0 <= i < j < list.len() ==> list[i] < list[j],
    ensures
        forall|r: usize|
            #[trigger] list.filter(pred).contains(r) <==> list.contains(r) && pred(r),
        forall|i: int, j: int|
            0 <= i < j < list.filter(pred).len() ==> list.filter(pred)[i] < list.filter(pred)[j],
    decreases list.len(),
{
    reveal(Seq::filter);
    if list.len() > 0 {
        let rest = list.drop_last();
        let last = list.last();
        lemma_filter_order(rest, pred);
        let part = rest.filter(pred);
        let whole = list.filter(pred);
        assert forall|r: usize| #[trigger] whole.contains(r) <==> list.contains(r) && pred(r) by {
            if list.contains(r) {
                let k = list.index_of(r);
                if k < rest.len() {
                    assert(rest[k] == r);
                    assert(rest.contains(r));
                }
            }
            if rest.contains(r) {
                assert(list[rest.index_of(r)] == r);
            }
            assert(list[list.len() - 1] == last);
            if pred(last) {
                assert(whole == part.push(last));
                assert(whole[part.len() as int] == last);
                if part.contains(r) {
                    assert(whole[part.index_of(r)] == r);
                }
                if whole.contains(r) && r != last {
                    let k = whole.index_of(r);
                    assert(part[k] == r);
                }
            } else {
                assert(whole == part);
            }
        }
        assert forall|i: int, j: int| 0 <= i < j < whole.len() implies whole[i] < whole[j] by {
            if j < part.len() {
                assert(part[i] < part[j]);
            } else {
                assert(part.contains(part[i]));
                let k = rest.index_of(part[i]);
                assert(list[k] < list[list.len() - 1]);
            }
        }
    }
}

/// How a route goes on: where it has places left and there is a way on from its
/// last road, a draw picks one of these ways, by its place among them, and the
/// route goes on from there with the words that are left. Otherwise it ends. A
/// route starts with the road of the vehicle, once a draw from 3 to 8 has picked
/// its length.
pub proof fn law_a_route_goes_on(
    words: Map<nat, u32>,
    city: CityModel,
    route: Seq<usize>,
    hops: int,
    start: usize,
)
    requires
        0 <= hops,
    ensures
        ({
            let ways = traffic::choices(city, route.last());
            let pick = random::between(words, 0, ways.len() - 1);
            let rest = random::after_between(words, 0, ways.len() - 1);
            &&& traffic::extended_route(words, city, route, 0) == (route, words)
            &&& ways.len() == 0 ==> traffic::extended_route(words, city, route, hops + 1) == (
                route,
                words,
            )
            &&& ways.len() > 0 ==> traffic::extended_route(words, city, route, hops + 1)
                == traffic::extended_route(rest, city, route.push(ways[pick]), hops)
            &&& traffic::drawn_route(words, city, start as int) == traffic::extended_route(
                random::after_between(words, 3, 8),
                city,
                seq![start],
                random::between(words, 3, 8) - 1,
            )
        }),
{
    assert(seq![start] =~= seq![start as int as usize]);
}

/// The words left before place `j` of a route is drawn: the length is drawn
/// first, and then the places before it, each from the ways on from the one before.
pub open spec fn words_before_place(
    words: Map<nat, u32>,
    city: CityModel,
    route: Seq<usize>,
    j: nat,
) -> Map<nat, u32>
    decreases j,
{
    if j <= 1 {
        random::after_between(words, 3, 8)
    } else {
        random::after_between(
            words_before_place(words, city, route, (j - 1) as nat),
            0,
            traffic::choices(city, route[j - 2]).len() - 1,
        )
    }
}

/// A route is drawn road by road: it starts on the road of the vehicle, and each
/// later road is the one of the ways on from the road before it that the next draw
/// picks. So every way on is taken by some value of that draw. It has as many roads
/// as a first draw from 3 to 8 says, unless no road leads on.
pub proof fn law_routes_are_drawn_road_by_road(
    words: Map<nat, u32>,
    city: CityModel,
    start: usize,
    j: int,
)
    requires
        city.wf(),
        start < city.roads.len(),
    ensures
        ({
            let (route, rest) = traffic::drawn_route(words, city, start as int);
            let drawn = random::between(words, 3, 8);
            let ways = traffic::choices(city, route[j - 1]);
            let left = words_before_place(words, city, route, j as nat);
            let pick = random::ranged(left, 0, (ways.len() - 1) as u64).0;
            &&& 1 <= route.len() <= drawn
            &&& route[0] == start
            &&& rest == words_before_place(words, city, route, route.len())
            &&& 1 <= j < route.len() ==> {
                &&& ways.len() > 0
                &&& route[j] == ways[random::between(left, 0, ways.len() - 1)]
                &&& pick < ways.len() <= u64::MAX ==> route[j] == ways[pick as int]
            }
            &&& route.len() < drawn ==> traffic::choices(city, route.last()).len() == 0
        }),
{
    let after = random::after_between(words, 3, 8);
    let drawn = random::between(words, 3, 8);
    let first = seq![start];
    assert(first =~= seq![start as int as usize]);
    let (route, rest) = traffic::drawn_route(words, city, start as int);
    assert(traffic::is_route(city, first)) by {
        reveal(traffic::is_route);
    }
    lemma_drawn_places(words, after, city, first, drawn - 1);
    if 1 <= j < route.len() {
        assert(place_is_drawn(words, city, route, j));
        let ways = traffic::choices(city, route[j - 1]);
        let left = words_before_place(words, city, route, j as nat);
        if ways.len() <= u64::MAX {
            let most = (ways.len() - 1) as u64;
            assert(most == ways.len() - 1);
        }
    }
}

/// Place `j` of a route is picked from the ways on by its draw.
spec fn place_is_drawn(
    words: Map<nat, u32>,
    city: CityModel,
    route: Seq<usize>,
    j: int,
) -> bool {
    let ways = traffic::choices(city, route[j - 1]);
    &&& ways.len() > 0
    &&& route[j] == ways[random::between(
        words_before_place(words, city, route, j as nat),
        0,
        ways.len() - 1,
    )]
}

proof fn lemma_words_prefix(
    words: Map<nat, u32>,
    city: CityModel,
    route: Seq<usize>,
    longer: Seq<usize>,
    j: nat,
)
    requires
        j <= route.len() <= longer.len(),
        forall|i: int| 0 <= i < route.len() ==> longer[i] == route[i],
    ensures
        words_before_place(words, city, route, j) == words_before_place(words, city, longer, j),
    decreases j,
{
    if j > 1 {
        lemma_words_prefix(words, city, route, longer, (j - 1) as nat);
    }
}

proof fn lemma_drawn_places(
    words: Map<nat, u32>,
    left: Map<nat, u32>,
    city: CityModel,
    route: Seq<usize>,
    hops: int,
)
    requires
        city.wf(),
        0 <= hops,
        route.len() >= 1,
        left == words_before_place(words, city, route, route.len()),
        forall|j: int| 1 <= j < route.len() ==> #[trigger] place_is_drawn(words, city, route, j),
    ensures
        ({
            let (full, rest) = traffic::extended_route(left, city, route, hops);
            &&& route.len() <= full.len() <= route.len() + hops
            &&& forall|i: int| 0 <= i < route.len() ==> full[i] == route[i]
            &&& rest == words_before_place(words, city, full, full.len())
            &&& forall|j: int|
                1 <= j < full.len() ==> #[trigger] place_is_drawn(words, city, full, j)
            &&& full.len() < route.len() + hops ==> traffic::choices(city, full.last()).len() == 0
        }),
    decreases hops,
{
    let pool = traffic::choices(city, route.last());
    if hops > 0 && pool.len() > 0 {
        let road = pool[random::between(left, 0, pool.len() - 1)];
        let longer = route.push(road);
        lemma_words_prefix(words, city, route, longer, route.len());
        assert forall|j: int| 1 <= j < longer.len() implies #[trigger] place_is_drawn(
            words,
            city,
            longer,
            j,
        ) by {
            if j < route.len() {
                assert(place_is_drawn(words, city, route, j));
                lemma_words_prefix(words, city, route, longer, j as nat);
            }
        }
        lemma_drawn_places(
            words,
            random::after_between(left, 0, pool.len() - 1),
            city,
            longer,
            hops - 1,
        );
    }
}

/// A new vehicle on a road. A full road gets none, without a draw. Otherwise one
/// comes exactly where a draw comes true, whose probability is the intensity of
/// the road times the spawn scale. It gets the free slot that was freed last, or a
/// new one, and stands at the start of its route at the end of the queue, without
/// waits and stalls. Nothing else changes.
pub proof fn law_a_vehicle_enters(
    traffic: Traffic,
    words: Map<nat, u32>,
    city: CityModel,
    config: SimConfig,
    r: int,
)
    requires
        traffic.free_slots_are_free(),
        traffic.vehicles.len() < usize::MAX || traffic.free_slots.len() > 0,
    ensures
        ({
            let (next, left) = traffic::spawn_on_road(traffic, words, city, config, r);
            let chance = city.roads[r].base_intensity * config.spawn_scale / 0x1_0000_0000int;
            let full = traffic.queues[r].len() >= city.roads[r].capacity;
            let drawn = random::after_chance(words, chance);
            let (route, rest) = traffic::drawn_route(drawn, city, r);
            let reused = traffic.free_slots.len() > 0;
            let slot = if reused {
                traffic.free_slots.last()
            } else {
                traffic.vehicles.len() as usize
            };
            let vehicle = Some(
                Trip { route, route_pos: 0, wait_ticks: 0, is_stopped: false, stall_count: 0 },
            );
            &&& full ==> next == traffic && left == words
            &&& !full && !random::hits(words, chance) ==> next == traffic && left == drawn
            &&& !full && random::hits(words, chance) ==> {
                &&& next.queues == traffic.queues.update(r, traffic.queues[r].push(slot))
                &&& reused ==> next.vehicles == traffic.vehicles.update(slot as int, vehicle)
                &&& reused ==> next.free_slots == traffic.free_slots.drop_last()
                &&& !reused ==> next.vehicles == traffic.vehicles.push(vehicle)
                &&& !reused ==> next.free_slots == traffic.free_slots
                &&& slot < next.vehicles.len()
                &&& next.vehicles[slot as int] == vehicle
                &&& next.completed == traffic.completed
                &&& next.waits == traffic.waits
                &&& next.stalls == traffic.stalls
                &&& left == rest
            }
        }),
{
    traffic_laws::lemma_next_slot(traffic);
}

/// A vehicle gets the free slot that was freed last, which is then no longer free,
/// or a new slot behind the others where none is free. The other slots and
/// everything else stay.
pub proof fn law_a_vehicle_gets_a_slot(traffic: Traffic, trip: Trip)
    ensures
        ({
            let next = traffic::allocated(traffic, trip);
            let free = traffic.free_slots;
            &&& free.len() > 0 ==> {
                &&& traffic::next_slot(traffic) == free.last()
                &&& next.vehicles == traffic.vehicles.update(free.last() as int, Some(trip))
                &&& next.free_slots == free.take(free.len() - 1)
            }
            &&& free.len() == 0 ==> {
                &&& traffic::next_slot(traffic) == traffic.vehicles.len() as usize
                &&& next.vehicles == traffic.vehicles.push(Some(trip))
                &&& next.free_slots == free
            }
            &&& next.queues == traffic.queues
            &&& next.completed == traffic.completed
            &&& next.waits == traffic.waits
            &&& next.stalls == traffic.stalls
        }),
{
    let free = traffic.free_slots;
    if free.len() > 0 {
        assert(free.drop_last() =~= free.take(free.len() - 1));
    }
}

/// A tick: the vehicles move, then new ones enter, road by road in the order of
/// their numbers, with the words that are left, and the tick is counted. The city,
/// the parameters and the configuration stay, and the run is done from
/// `max_ticks` ticks on.
pub proof fn law_a_tick_moves_and_then_spawns(model: SimModel, actions: Seq<u8>, k: int)
    requires
        0 <= k,
    ensures
        ({
            let next = model.after_step(actions);
            let moved = model.after_moves(actions);
            let all = model.city.roads.len() as int;
            let (before, words) = traffic::spawn_on_roads(
                moved,
                model.words,
                model.city,
                model.config,
                k,
            );
            &&& traffic::spawn_on_roads(moved, model.words, model.city, model.config, 0) == (
                moved,
                model.words,
            )
            &&& traffic::spawn_on_roads(moved, model.words, model.city, model.config, k + 1)
                == traffic::spawn_on_road(before, words, model.city, model.config, k)
            &&& (next.traffic, next.words) == traffic::spawn_on_roads(
                moved,
                model.words,
                model.city,
                model.config,
                all,
            )
            &&& next.tick == model.tick + 1
            &&& next.city == model.city
            &&& next.params == model.params
            &&& next.config == model.config
            &&& next.done() <==> model.tick + 1 >= model.config.max_ticks
        }),
{
}

/// A simulation starts in the city of its seed, at tick 0, with every signal
/// north-south green, nothing on the roads and nothing counted. Its own words come
/// from another seed than those of the city.
pub proof fn law_a_simulation_starts_so(seed: u64, params: ParamsModel, config: SimConfig)
    ensures
        ({
            let start = traffic::start(seed, params, config);
            let roads = plan::city(seed, params).roads.len();
            &&& start.city == plan::city(seed, params)
            &&& start.params == params
            &&& start.config == config
            &&& start.tick == 0
            &&& start.words == random::seeded(seed ^ 0x9e37_79b9_7f4a_7c15)
            &&& start.phases.len() == start.city.intersections.len()
            &&& forall|i: int|
                0 <= i < start.phases.len() ==> #[trigger] start.phases[i]
                    == Phase::NorthSouthGreen
            &&& start.traffic.vehicles.len() == 0
            &&& start.traffic.free_slots.len() == 0
            &&& start.traffic.completed == 0
            &&& start.traffic.queues.len() == roads
            &&& start.traffic.waits.len() == roads
            &&& start.traffic.stalls.len() == roads
            &&& forall|r: int|
                0 <= r < roads ==> (#[trigger] start.traffic.queues[r]).len() == 0
            &&& forall|r: int| 0 <= r < roads ==> #[trigger] start.traffic.waits[r] == 0
            &&& forall|r: int| 0 <= r < roads ==> #[trigger] start.traffic.stalls[r] == 0
        }),
{
}

/// A sum over some numbers: that of none is 0, and one more number adds itself.
pub proof fn law_a_total_adds_each_number(counts: Seq<nat>, count: nat, list: Seq<usize>, r: usize)
    ensures
        traffic::total(Seq::empty()) == 0,
        traffic::total(counts.push(count)) == traffic::total(counts) + count,
        traffic::total_over(counts, Seq::empty()) == 0,
        traffic::total_over(counts, list.push(r)) == traffic::total_over(counts, list)
            + counts[r as int],
{
    assert(counts.push(count).drop_last() =~= counts);
    assert(list.push(r).drop_last() =~= list);
}

/// The metrics of the vehicles, slot by slot: an empty slot adds nothing, and a
/// vehicle adds 1 to the vehicles, its waits to the waits and its stalls to the
/// stalls. The roads add their queues to the vehicles on the roads, and their
/// capacities to the capacity of all.
pub proof fn law_metrics_add_each_vehicle(
    vehicles: Seq<Option<Trip>>,
    trip: Trip,
    queues: Seq<Seq<usize>>,
    queue: Seq<usize>,
    roads: Seq<crate::city::Road>,
    road: crate::city::Road,
)
    ensures
        traffic::active(Seq::empty()) == 0,
        traffic::active(vehicles.push(None)) == traffic::active(vehicles),
        traffic::active(vehicles.push(Some(trip))) == traffic::active(vehicles) + 1,
        traffic::total_wait_ticks(Seq::empty()) == 0,
        traffic::total_wait_ticks(vehicles.push(None)) == traffic::total_wait_ticks(vehicles),
        traffic::total_wait_ticks(vehicles.push(Some(trip))) == traffic::total_wait_ticks(vehicles)
            + trip.wait_ticks,
        traffic::total_stalls(Seq::empty()) == 0,
        traffic::total_stalls(vehicles.push(None)) == traffic::total_stalls(vehicles),
        traffic::total_stalls(vehicles.push(Some(trip))) == traffic::total_stalls(vehicles)
            + trip.stall_count,
        traffic::queued(Seq::empty()) == 0,
        traffic::queued(queues.push(queue)) == traffic::queued(queues) + queue.len(),
        traffic::total_capacity(Seq::empty()) == 0,
        traffic::total_capacity(roads.push(road)) == traffic::total_capacity(roads)
            + road.capacity,
{
    assert(vehicles.push(None).drop_last() =~= vehicles);
    assert(vehicles.push(Some(trip)).drop_last() =~= vehicles);
    assert(queues.push(queue).drop_last() =~= queues);
    assert(roads.push(road).drop_last() =~= roads);
}

/// The reward of a tick, in parts of `ONE`: minus one for each wait and minus the
/// stall penalty for each stall. That of an intersection counts the roads that
/// lead to it, and no others.
pub proof fn law_the_reward_counts_waits_and_stalls(model: SimModel, i: int)
    requires
        model.wf(),
        0 <= i < model.city.intersections.len(),
    ensures
        model.reward() == -(0x1_0000_0000 * traffic::total(model.traffic.waits)
            + model.config.stall_penalty * traffic::total(model.traffic.stalls)),
        traffic::waits_this_tick(model.traffic) == traffic::total(model.traffic.waits),
        traffic::stalls_this_tick(model.traffic) == traffic::total(model.traffic.stalls),
        ({
            let own = |counts: Seq<nat>|
                Seq::new(
                    model.city.roads.len(),
                    |r: int|
                        if model.city.roads[r].to == i {
                            counts[r]
                        } else {
                            0
                        },
                );
            traffic::local_reward(model, i) == -(0x1_0000_0000 * traffic::total(
                own(model.traffic.waits),
            ) + model.config.stall_penalty * traffic::total(own(model.traffic.stalls)))
        }),
{
    let waits = model.traffic.waits;
    let stalls = model.traffic.stalls;
    let penalty = model.config.stall_penalty;
    let all = traffic::total(stalls);
    assert(penalty * all == all * penalty) by (nonlinear_arith);
    let w = lemma_own_counts(model.city, waits, i);
    let s = lemma_own_counts(model.city, stalls, i);
    let own = |counts: Seq<nat>|
        Seq::new(
            model.city.roads.len(),
            |r: int|
                if model.city.roads[r].to == i {
                    counts[r]
                } else {
                    0
                },
        );
    assert(own(waits) =~= w);
    assert(own(stalls) =~= s);
    let mine = traffic::total(s);
    assert(penalty * mine == mine * penalty) by (nonlinear_arith);
}

/// The counts of the roads that lead to an intersection, and 0 for the others.
pub proof fn lemma_own_counts(city: CityModel, counts: Seq<nat>, i: int) -> (own: Seq<nat>)
    requires
        city.wf(),
        counts.len() == city.roads.len(),
        0 <= i < city.intersections.len(),
    ensures
        own.len() == counts.len(),
        forall|r: int|
            0 <= r < counts.len() ==> #[trigger] own[r] == if city.roads[r].to == i {
                counts[r]
            } else {
                0
            },
        traffic::total(own) == traffic::total_over(counts, city.intersections[i].incoming),
{
    let list = city.intersections[i].incoming;
    city_laws::law_lists_hold_exactly_the_roads(city, i);
    assert forall|k: int| 0 <= k < list.len() implies (#[trigger] list[k]) < counts.len() by {
        assert(list.contains(list[k]));
    }
    sim_laws::lemma_total_listed(counts, list);
    let own = sim_laws::listed(counts, list);
    assert forall|r: int| 0 <= r < counts.len() implies #[trigger] own[r] == if city.roads[r].to
        == i {
        counts[r]
    } else {
        0
    } by {
        assert(list.contains(r as usize) <==> city.roads[r].to == i);
    }
    own
}

} // verus!
