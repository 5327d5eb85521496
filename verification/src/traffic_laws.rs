//! What holds of the traffic in a city, tick after tick.

use vstd::prelude::*;

use crate::city::{CityModel, Road};
use crate::city_laws;
use crate::plan;
use crate::random;
use crate::sim::{Phase, SimConfig, MAX_ROUTE_HOPS, MIN_ROUTE_HOPS};
use crate::traffic;
use crate::traffic::{Traffic, Trip};

verus! {

pub proof fn lemma_total_update(counts: Seq<nat>, i: int, value: nat)
    requires
        0 <= i < counts.len(),
    ensures
        traffic::total(counts.update(i, value)) == traffic::total(counts) - counts[i] + value,
    decreases counts.len(),
{
    let next = counts.update(i, value);
    if i == counts.len() - 1 {
        assert(next.drop_last() =~= counts.drop_last());
    } else {
        assert(next.drop_last() =~= counts.drop_last().update(i, value));
        lemma_total_update(counts.drop_last(), i, value);
    }
}

pub proof fn lemma_queued_update(queues: Seq<Seq<usize>>, i: int, queue: Seq<usize>)
    requires
        0 <= i < queues.len(),
    ensures
        traffic::queued(queues.update(i, queue)) == traffic::queued(queues) - queues[i].len()
            + queue.len(),
    decreases queues.len(),
{
    let next = queues.update(i, queue);
    if i == queues.len() - 1 {
        assert(next.drop_last() =~= queues.drop_last());
    } else {
        assert(next.drop_last() =~= queues.drop_last().update(i, queue));
        lemma_queued_update(queues.drop_last(), i, queue);
    }
}

pub proof fn lemma_active_update(vehicles: Seq<Option<Trip>>, i: int, vehicle: Option<Trip>)
    requires
        0 <= i < vehicles.len(),
    ensures
        traffic::active(vehicles.update(i, vehicle)) == traffic::active(vehicles) - (
        if vehicles[i] is Some {
            1int
        } else {
            0
        }) + (if vehicle is Some {
            1int
        } else {
            0
        }),
    decreases vehicles.len(),
{
    let next = vehicles.update(i, vehicle);
    if i == vehicles.len() - 1 {
        assert(next.drop_last() =~= vehicles.drop_last());
    } else {
        assert(next.drop_last() =~= vehicles.drop_last().update(i, vehicle));
        lemma_active_update(vehicles.drop_last(), i, vehicle);
    }
}

proof fn lemma_active_same(a: Seq<Option<Trip>>, b: Seq<Option<Trip>>)
    requires
        a.len() == b.len(),
        forall|v: int| 0 <= v < a.len() ==> (#[trigger] a[v] is Some <==> b[v] is Some),
    ensures
        traffic::active(a) == traffic::active(b),
    decreases a.len(),
{
    if a.len() > 0 {
        lemma_active_same(a.drop_last(), b.drop_last());
    }
}

/// The vehicles on the roads are at most as many as the roads hold, and fewer
/// where one of them has room.
pub proof fn lemma_queued_capacity(queues: Seq<Seq<usize>>, roads: Seq<Road>)
    requires
        queues.len() == roads.len(),
        forall|r: int|
            0 <= r < queues.len() ==> (#[trigger] queues[r]).len() <= roads[r].capacity,
    ensures
        traffic::queued(queues) <= traffic::total_capacity(roads),
        forall|r: int|
            0 <= r < queues.len() && (#[trigger] queues[r]).len() < roads[r].capacity
                ==> traffic::queued(queues) < traffic::total_capacity(roads),
    decreases queues.len(),
{
    if queues.len() > 0 {
        let rest = queues.drop_last();
        assert forall|r: int| 0 <= r < rest.len() implies (#[trigger] rest[r]).len()
            <= roads.drop_last()[r].capacity by {
            assert(rest[r] == queues[r]);
        }
        lemma_queued_capacity(rest, roads.drop_last());
        assert forall|r: int|
            0 <= r < queues.len() && (#[trigger] queues[r]).len()
                < roads[r].capacity implies traffic::queued(queues) < traffic::total_capacity(
            roads,
        ) by {
            assert(queues[queues.len() - 1].len() <= roads[queues.len() - 1].capacity);
            if r < rest.len() {
                assert(rest[r] == queues[r]);
                assert(roads.drop_last()[r] == roads[r]);
            }
        }
        assert(queues[queues.len() - 1].len() <= roads[queues.len() - 1].capacity);
    }
}

/// What a place in a queue holds.
pub proof fn lemma_queue_entry(traffic: Traffic, city: CityModel, r: int, i: int)
    requires
        traffic.queues_hold_vehicles(city),
        traffic.vehicles_are_queued(city),
        0 <= r < city.roads.len(),
        0 <= i < traffic.queues[r].len(),
    ensures
        traffic.queues.len() == city.roads.len(),
        traffic.queues[r][i] < traffic.vehicles.len(),
        traffic.vehicles[traffic.queues[r][i] as int] is Some,
        traffic::road_of(traffic::trip(traffic, traffic.queues[r][i] as int)) == r,
        traffic::is_trip(city, traffic::trip(traffic, traffic.queues[r][i] as int)),
{
    reveal(Traffic::queues_hold_vehicles);
    reveal(Traffic::vehicles_are_queued);
    let v = traffic.queues[r][i] as int;
    assert(traffic.vehicles[v] is Some);
}

/// A vehicle is in no queue but that of its road.
proof fn lemma_queue_of(traffic: Traffic, city: CityModel, r: int, slot: usize)
    requires
        traffic.queues_hold_vehicles(city),
        0 <= r < city.roads.len(),
        traffic.queues[r].contains(slot),
    ensures
        slot < traffic.vehicles.len(),
        traffic.vehicles[slot as int] is Some,
        traffic::road_of(traffic::trip(traffic, slot as int)) == r,
{
    reveal(Traffic::queues_hold_vehicles);
    let i = choose|i: int| 0 <= i < traffic.queues[r].len() && traffic.queues[r][i] == slot;
    assert(traffic.queues[r][i] == slot);
}

/// The slots in use, and the routes and places of the vehicles, are the same.
spec fn same_places(a: Traffic, b: Traffic) -> bool {
    &&& a.queues == b.queues
    &&& a.free_slots == b.free_slots
    &&& a.vehicles.len() == b.vehicles.len()
    &&& forall|v: int|
        #![trigger b.vehicles[v]]
        0 <= v < b.vehicles.len() ==> {
            &&& a.vehicles[v] is Some <==> b.vehicles[v] is Some
            &&& b.vehicles[v] is Some ==> {
                &&& traffic::trip(a, v).route == traffic::trip(b, v).route
                &&& traffic::trip(a, v).route_pos == traffic::trip(b, v).route_pos
                &&& traffic::trip(a, v).stall_count == traffic::trip(b, v).stall_count
            }
        }
}

proof fn lemma_same_places_queues(a: Traffic, b: Traffic, city: CityModel)
    requires
        same_places(a, b),
        a.queues_hold_vehicles(city),
    ensures
        b.queues_hold_vehicles(city),
{
    reveal(Traffic::queues_hold_vehicles);
    assert forall|r: int, i: int|
        #![trigger b.queues[r][i]]
        0 <= r < b.queues.len() && 0 <= i < b.queues[r].len() implies {
        &&& b.queues[r][i] < b.vehicles.len()
        &&& b.vehicles[b.queues[r][i] as int] is Some
        &&& traffic::road_of(traffic::trip(b, b.queues[r][i] as int)) == r
    } by {
        assert(a.queues[r][i] < a.vehicles.len());
        let v = b.queues[r][i] as int;
        assert(b.vehicles[v] is Some <==> a.vehicles[v] is Some);
    }
}

proof fn lemma_same_places_vehicles(a: Traffic, b: Traffic, city: CityModel)
    requires
        same_places(a, b),
        a.vehicles_are_queued(city),
    ensures
        b.vehicles_are_queued(city),
{
    reveal(Traffic::vehicles_are_queued);
    assert forall|v: int|
        #![trigger b.vehicles[v]]
        0 <= v < b.vehicles.len() && b.vehicles[v] is Some implies {
        &&& traffic::is_trip(city, traffic::trip(b, v))
        &&& b.queues[traffic::road_of(traffic::trip(b, v)) as int].contains(v as usize)
    } by {
        assert(a.vehicles[v] is Some);
    }
}

proof fn lemma_same_places_free(a: Traffic, b: Traffic)
    requires
        same_places(a, b),
        a.free_slots_are_free(),
    ensures
        b.free_slots_are_free(),
{
    reveal(Traffic::free_slots_are_free);
    assert forall|i: int| 0 <= i < b.free_slots.len() implies (#[trigger] b.free_slots[i])
        < b.vehicles.len() && b.vehicles[b.free_slots[i] as int] is None by {
        assert(a.free_slots[i] < a.vehicles.len());
        assert(a.vehicles[a.free_slots[i] as int] is None);
        let v = b.free_slots[i] as int;
        assert(b.vehicles[v] is Some <==> a.vehicles[v] is Some);
    }
    assert forall|v: int|
        #![trigger b.vehicles[v]]
        0 <= v < b.vehicles.len() && b.vehicles[v] is None implies b.free_slots.contains(
        v as usize,
    ) by {
        assert(a.vehicles[v] is None);
    }
}

/// Standing still keeps the traffic in order.
pub proof fn lemma_hold_road(traffic: Traffic, city: CityModel, r: int)
    requires
        traffic.wf(city),
        0 <= r < city.roads.len(),
    ensures
        traffic::hold_road(traffic, r).wf(city),
{
    let next = traffic::hold_road(traffic, r);
    assert(same_places(traffic, next));
    lemma_same_places_queues(traffic, next, city);
    lemma_same_places_vehicles(traffic, next, city);
    lemma_same_places_free(traffic, next);
    lemma_active_same(traffic.vehicles, next.vehicles);
}

/// The next road of a vehicle starts where its present road ends, and is
/// another one.
pub proof fn lemma_next_road(city: CityModel, trip: Trip)
    requires
        city.wf(),
        traffic::is_trip(city, trip),
    ensures
        trip.stall_count <= trip.route_pos < trip.route.len() <= MAX_ROUTE_HOPS,
        traffic::road_of(trip) < city.roads.len(),
        !traffic::on_last_road(trip) ==> {
            &&& traffic::next_road(trip) < city.roads.len()
            &&& traffic::next_road(trip) != traffic::road_of(trip)
            &&& city.roads[traffic::road_of(trip) as int].to
                == city.roads[traffic::next_road(trip) as int].from
        },
{
    reveal(traffic::is_route);
    let here = traffic::road_of(trip) as int;
    assert(trip.route[trip.route_pos as int] < city.roads.len());
    assert(plan::sound_road(city.roads[here], here, city.sites()));
    if !traffic::on_last_road(trip) {
        let j = trip.route_pos as int + 1;
        assert(trip.route[j] < city.roads.len());
        assert(city.roads[trip.route[j - 1] as int].to == city.roads[trip.route[j] as int].from);
    }
}

proof fn lemma_complete_queues(traffic: Traffic, city: CityModel, r: int)
    requires
        traffic.queues_hold_vehicles(city),
        0 <= r < city.roads.len(),
        traffic.queues[r].len() > 0,
        traffic::on_last_road(traffic::trip(traffic, traffic.queues[r][0] as int)),
    ensures
        traffic::advance(traffic, r).queues_hold_vehicles(city),
{
    reveal(Traffic::queues_hold_vehicles);
    let next = traffic::advance(traffic, r);
    let slot = traffic.queues[r][0];
    assert forall|a: int, i: int|
        #![trigger next.queues[a][i]]
        0 <= a < next.queues.len() && 0 <= i < next.queues[a].len() implies {
        &&& next.queues[a][i] < next.vehicles.len()
        &&& next.vehicles[next.queues[a][i] as int] is Some
        &&& traffic::road_of(traffic::trip(next, next.queues[a][i] as int)) == a
    } by {
        assert(traffic.queues[r][0] < traffic.vehicles.len());
        if a == r {
            assert(next.queues[a][i] == traffic.queues[r][i + 1]);
            assert(traffic.queues[r].no_duplicates());
            assert(traffic.queues[r][i + 1] != slot);
        } else {
            assert(next.queues[a][i] == traffic.queues[a][i]);
        }
    }
    assert forall|a: int| 0 <= a < next.queues.len() implies (
    #[trigger] next.queues[a]).no_duplicates() by {
        assert(traffic.queues[a].no_duplicates());
    }
}

proof fn lemma_complete_vehicles(traffic: Traffic, city: CityModel, r: int)
    requires
        traffic.queues_hold_vehicles(city),
        traffic.vehicles_are_queued(city),
        traffic.vehicles.len() <= usize::MAX,
        city.wf(),
        0 <= r < city.roads.len(),
        traffic.queues[r].len() > 0,
        traffic::on_last_road(traffic::trip(traffic, traffic.queues[r][0] as int)),
    ensures
        traffic::advance(traffic, r).vehicles_are_queued(city),
{
    lemma_queue_entry(traffic, city, r, 0);
    reveal(Traffic::vehicles_are_queued);
    let next = traffic::advance(traffic, r);
    let slot = traffic.queues[r][0];
    assert forall|v: int|
        #![trigger next.vehicles[v]]
        0 <= v < next.vehicles.len() && next.vehicles[v] is Some implies {
        &&& traffic::is_trip(city, traffic::trip(next, v))
        &&& next.queues[traffic::road_of(traffic::trip(next, v)) as int].contains(v as usize)
    } by {
        assert(traffic.vehicles[v] is Some);
        assert(v != slot);
        lemma_next_road(city, traffic::trip(traffic, v));
        let a = traffic::road_of(traffic::trip(traffic, v)) as int;
        let i = choose|i: int|
            0 <= i < traffic.queues[a].len() && traffic.queues[a][i] == v as usize;
        if a == r {
            assert(next.queues[a][i - 1] == v as usize);
        } else {
            assert(next.queues[a] == traffic.queues[a]);
        }
    }
}

pub proof fn lemma_complete_free(traffic: Traffic, slot: usize)
    requires
        traffic.free_slots_are_free(),
        slot < traffic.vehicles.len(),
        traffic.vehicles[slot as int] is Some,
    ensures
        traffic::freed(traffic, slot).free_slots_are_free(),
{
    reveal(Traffic::free_slots_are_free);
    let next = traffic::freed(traffic, slot);
    assert forall|i: int| 0 <= i < next.free_slots.len() implies (#[trigger] next.free_slots[i])
        < next.vehicles.len() && next.vehicles[next.free_slots[i] as int] is None by {
        if i < traffic.free_slots.len() {
            assert(next.free_slots[i] == traffic.free_slots[i]);
        }
    }
    assert forall|i: int, j: int|
        0 <= i < next.free_slots.len() && 0 <= j < next.free_slots.len() && i
            != j implies next.free_slots[i] != next.free_slots[j] by {
        if i < traffic.free_slots.len() {
            assert(traffic.vehicles[traffic.free_slots[i] as int] is None);
        }
        if j < traffic.free_slots.len() {
            assert(traffic.vehicles[traffic.free_slots[j] as int] is None);
        }
    }
    assert forall|v: int|
        #![trigger next.vehicles[v]]
        0 <= v < next.vehicles.len() && next.vehicles[v] is None implies next.free_slots.contains(
        v as usize,
    ) by {
        if v == slot {
            assert(next.free_slots[traffic.free_slots.len() as int] == v as usize);
        } else {
            assert(traffic.vehicles[v] is None);
            let i = choose|i: int|
                0 <= i < traffic.free_slots.len() && traffic.free_slots[i] == v as usize;
            assert(next.free_slots[i] == v as usize);
        }
    }
}

proof fn lemma_move_queues(traffic: Traffic, city: CityModel, r: int)
    requires
        traffic.queues_hold_vehicles(city),
        traffic.vehicles_are_queued(city),
        city.wf(),
        0 <= r < city.roads.len(),
        traffic.queues[r].len() > 0,
        !traffic::on_last_road(traffic::trip(traffic, traffic.queues[r][0] as int)),
    ensures
        traffic::advance(traffic, r).queues_hold_vehicles(city),
{
    lemma_queue_entry(traffic, city, r, 0);
    let next = traffic::advance(traffic, r);
    let slot = traffic.queues[r][0];
    let first = traffic::trip(traffic, slot as int);
    lemma_next_road(city, first);
    let to = traffic::next_road(first) as int;
    reveal(Traffic::queues_hold_vehicles);
    assert forall|a: int, i: int|
        #![trigger next.queues[a][i]]
        0 <= a < next.queues.len() && 0 <= i < next.queues[a].len() implies {
        &&& next.queues[a][i] < next.vehicles.len()
        &&& next.vehicles[next.queues[a][i] as int] is Some
        &&& traffic::road_of(traffic::trip(next, next.queues[a][i] as int)) == a
    } by {
        if a == r {
            assert(next.queues[a][i] == traffic.queues[r][i + 1]);
            assert(traffic.queues[r].no_duplicates());
            assert(traffic.queues[r][i + 1] != slot);
        } else if a == to && i == traffic.queues[to].len() {
            assert(next.queues[a][i] == slot);
        } else {
            assert(next.queues[a][i] == traffic.queues[a][i]);
        }
    }
    assert forall|a: int| 0 <= a < next.queues.len() implies (
    #[trigger] next.queues[a]).no_duplicates() by {
        assert(traffic.queues[a].no_duplicates());
        if a == to {
            assert(next.queues[a] == traffic.queues[a].push(slot));
            assert forall|i: int, j: int|
                0 <= i < next.queues[a].len() && 0 <= j < next.queues[a].len() && i
                    != j implies next.queues[a][i] != next.queues[a][j] by {
                if i < traffic.queues[a].len() {
                    assert(traffic::road_of(traffic::trip(traffic, traffic.queues[a][i] as int))
                        == a);
                }
                if j < traffic.queues[a].len() {
                    assert(traffic::road_of(traffic::trip(traffic, traffic.queues[a][j] as int))
                        == a);
                }
            }
        }
    }
}

proof fn lemma_move_vehicles(traffic: Traffic, city: CityModel, r: int)
    requires
        traffic.queues_hold_vehicles(city),
        traffic.vehicles_are_queued(city),
        traffic.vehicles.len() <= usize::MAX,
        city.wf(),
        0 <= r < city.roads.len(),
        traffic.queues[r].len() > 0,
        !traffic::on_last_road(traffic::trip(traffic, traffic.queues[r][0] as int)),
    ensures
        traffic::advance(traffic, r).vehicles_are_queued(city),
{
    lemma_queue_entry(traffic, city, r, 0);
    let next = traffic::advance(traffic, r);
    let slot = traffic.queues[r][0];
    let first = traffic::trip(traffic, slot as int);
    lemma_next_road(city, first);
    let to = traffic::next_road(first) as int;
    reveal(Traffic::vehicles_are_queued);
    assert forall|v: int|
        #![trigger next.vehicles[v]]
        0 <= v < next.vehicles.len() && next.vehicles[v] is Some implies {
        &&& traffic::is_trip(city, traffic::trip(next, v))
        &&& next.queues[traffic::road_of(traffic::trip(next, v)) as int].contains(v as usize)
    } by {
        if v == slot {
            assert(next.queues[to][traffic.queues[to].len() as int] == slot);
            assert(traffic::road_of(traffic::trip(next, v)) == to);
        } else {
            assert(traffic.vehicles[v] is Some);
            lemma_next_road(city, traffic::trip(traffic, v));
            let a = traffic::road_of(traffic::trip(traffic, v)) as int;
            let i = choose|i: int|
                0 <= i < traffic.queues[a].len() && traffic.queues[a][i] == v as usize;
            if a == r {
                assert(next.queues[a][i - 1] == v as usize);
            } else {
                assert(next.queues[a][i] == v as usize);
            }
        }
    }
}

proof fn lemma_update_free(traffic: Traffic, slot: usize, trip: Trip)
    requires
        traffic.free_slots_are_free(),
        slot < traffic.vehicles.len(),
        traffic.vehicles[slot as int] is Some,
    ensures
        (Traffic {
            vehicles: traffic.vehicles.update(slot as int, Some(trip)),
            ..traffic
        }).free_slots_are_free(),
{
    reveal(Traffic::free_slots_are_free);
    let vehicles = traffic.vehicles.update(slot as int, Some(trip));
    assert forall|v: int|
        #![trigger vehicles[v]]
        0 <= v < vehicles.len() && vehicles[v] is None implies traffic.free_slots.contains(
        v as usize,
    ) by {
        assert(traffic.vehicles[v] is None);
    }
}

proof fn lemma_free_slots_only(a: Traffic, b: Traffic)
    requires
        a.free_slots_are_free(),
        a.free_slots == b.free_slots,
        a.vehicles == b.vehicles,
    ensures
        b.free_slots_are_free(),
{
    reveal(Traffic::free_slots_are_free);
}

/// A move keeps the traffic in order.
pub proof fn lemma_advance(traffic: Traffic, city: CityModel, r: int)
    requires
        traffic.wf(city),
        city.wf(),
        0 <= r < city.roads.len(),
        traffic::can_advance(traffic, city, r),
    ensures
        traffic::advance(traffic, r).wf(city),
{
    lemma_queue_entry(traffic, city, r, 0);
    let next = traffic::advance(traffic, r);
    let slot = traffic.queues[r][0];
    let first = traffic::trip(traffic, slot as int);
    lemma_next_road(city, first);
    let rest = traffic.queues[r].subrange(1, traffic.queues[r].len() as int);
    let left = traffic.queues.update(r, rest);
    lemma_queued_update(traffic.queues, r, rest);
    if traffic::on_last_road(first) {
        lemma_complete_queues(traffic, city, r);
        lemma_complete_vehicles(traffic, city, r);
        lemma_complete_free(traffic, slot);
        lemma_free_slots_only(traffic::freed(traffic, slot), next);
        lemma_active_update(traffic.vehicles, slot as int, None);
        assert forall|a: int| 0 <= a < next.queues.len() implies (#[trigger] next.queues[a]).len()
            <= city.roads[a].capacity by {
            assert(traffic.queues[a].len() <= city.roads[a].capacity);
        }
    } else {
        let to = traffic::next_road(first) as int;
        lemma_move_queues(traffic, city, r);
        lemma_move_vehicles(traffic, city, r);
        lemma_update_free(traffic, slot, traffic::moved(first));
        lemma_free_slots_only(
            Traffic {
                vehicles: traffic.vehicles.update(slot as int, Some(traffic::moved(first))),
                ..traffic
            },
            next,
        );
        lemma_active_update(traffic.vehicles, slot as int, Some(traffic::moved(first)));
        lemma_queued_update(left, to, left[to].push(slot));
        assert forall|a: int| 0 <= a < next.queues.len() implies (#[trigger] next.queues[a]).len()
            <= city.roads[a].capacity by {
            assert(traffic.queues[a].len() <= city.roads[a].capacity);
        }
    }
}

/// A move keeps the vehicles, but for one that completes its route.
pub proof fn lemma_advance_count(traffic: Traffic, city: CityModel, r: int)
    requires
        traffic.wf(city),
        city.wf(),
        0 <= r < city.roads.len(),
        traffic::can_advance(traffic, city, r),
    ensures
        ({
            let next = traffic::advance(traffic, r);
            next.completed + traffic::queued(next.queues) == traffic.completed + traffic::queued(
                traffic.queues,
            )
        }),
{
    lemma_queue_entry(traffic, city, r, 0);
    let first = traffic::trip(traffic, traffic.queues[r][0] as int);
    lemma_next_road(city, first);
    let rest = traffic.queues[r].subrange(1, traffic.queues[r].len() as int);
    lemma_queued_update(traffic.queues, r, rest);
    if !traffic::on_last_road(first) {
        let left = traffic.queues.update(r, rest);
        let next = traffic::next_road(first) as int;
        lemma_queued_update(left, next, left[next].push(traffic.queues[r][0]));
    }
}

/// A tick on a road keeps the traffic in order.
pub proof fn lemma_process_road(
    traffic: Traffic,
    city: CityModel,
    phases: Seq<Phase>,
    r: int,
)
    requires
        traffic.wf(city),
        city.wf(),
        0 <= r < city.roads.len(),
    ensures
        traffic::process_road(traffic, city, phases, r).wf(city),
{
    if traffic::can_advance(traffic, city, r) {
        lemma_advance(traffic, city, r);
        lemma_hold_road(traffic::advance(traffic, r), city, r);
    }
    lemma_hold_road(traffic, city, r);
}

/// No vehicle has waited more than `limit` ticks, but one tick more on the
/// first `count` roads.
pub open spec fn waits_staged(traffic: Traffic, limit: int, count: int) -> bool {
    forall|v: int|
        #![trigger traffic.vehicles[v]]
        0 <= v < traffic.vehicles.len() && traffic.vehicles[v] is Some ==> traffic::trip(
            traffic,
            v,
        ).wait_ticks <= limit + (if traffic::road_of(traffic::trip(traffic, v)) < count {
            1int
        } else {
            0
        })
}

proof fn lemma_hold_waits(traffic: Traffic, city: CityModel, r: int, limit: int)
    requires
        traffic.wf(city),
        0 <= r < city.roads.len(),
        waits_staged(traffic, limit, r),
    ensures
        waits_staged(traffic::hold_road(traffic, r), limit, r + 1),
{
    let next = traffic::hold_road(traffic, r);
    assert forall|v: int|
        #![trigger next.vehicles[v]]
        0 <= v < next.vehicles.len() && next.vehicles[v] is Some implies traffic::trip(
        next,
        v,
    ).wait_ticks <= limit + (if traffic::road_of(traffic::trip(next, v)) < r + 1 {
        1int
    } else {
        0
    }) by {
        assert(traffic.vehicles[v] is Some);
        if traffic.queues[r].contains(v as usize) {
            lemma_queue_of(traffic, city, r, v as usize);
        }
    }
}

/// A move keeps the bound on the waits.
pub proof fn lemma_advance_waits(traffic: Traffic, city: CityModel, r: int, limit: int)
    requires
        traffic.wf(city),
        0 <= r < city.roads.len(),
        0 <= limit,
        traffic::can_advance(traffic, city, r),
        waits_staged(traffic, limit, r),
    ensures
        waits_staged(traffic::advance(traffic, r), limit, r),
{
    lemma_queue_entry(traffic, city, r, 0);
    let next = traffic::advance(traffic, r);
    let slot = traffic.queues[r][0];
    assert forall|v: int|
        #![trigger next.vehicles[v]]
        0 <= v < next.vehicles.len() && next.vehicles[v] is Some implies traffic::trip(
        next,
        v,
    ).wait_ticks <= limit + (if traffic::road_of(traffic::trip(next, v)) < r {
        1int
    } else {
        0
    }) by {
        assert(traffic.vehicles[v] is Some || v == slot);
    }
}

/// In a tick no vehicle waits on a road more than once.
pub proof fn lemma_process_waits(
    traffic: Traffic,
    city: CityModel,
    phases: Seq<Phase>,
    r: int,
    limit: int,
)
    requires
        traffic.wf(city),
        city.wf(),
        0 <= r < city.roads.len(),
        0 <= limit,
        waits_staged(traffic, limit, r),
    ensures
        waits_staged(traffic::process_road(traffic, city, phases, r), limit, r + 1),
{
    if traffic::can_advance(traffic, city, r) {
        lemma_advance(traffic, city, r);
        lemma_advance_waits(traffic, city, r, limit);
        lemma_hold_waits(traffic::advance(traffic, r), city, r, limit);
    }
    lemma_hold_waits(traffic, city, r, limit);
}

proof fn lemma_entered_queues(traffic: Traffic, city: CityModel, r: int, route: Seq<usize>)
    requires
        traffic.queues_hold_vehicles(city),
        traffic.free_slots_are_free(),
        traffic.vehicles.len() < usize::MAX || traffic.free_slots.len() > 0,
        0 <= r < city.roads.len(),
        route.len() > 0,
        route[0] == r,
    ensures
        traffic::entered(traffic, r, route).queues_hold_vehicles(city),
{
    let next = traffic::entered(traffic, r, route);
    let slot = traffic::next_slot(traffic);
    lemma_next_slot(traffic);
    reveal(Traffic::queues_hold_vehicles);
    assert forall|a: int, i: int|
        #![trigger next.queues[a][i]]
        0 <= a < next.queues.len() && 0 <= i < next.queues[a].len() implies {
        &&& next.queues[a][i] < next.vehicles.len()
        &&& next.vehicles[next.queues[a][i] as int] is Some
        &&& traffic::road_of(traffic::trip(next, next.queues[a][i] as int)) == a
    } by {
        if a == r && i == traffic.queues[r].len() {
            assert(next.queues[a][i] == slot);
        } else {
            assert(next.queues[a][i] == traffic.queues[a][i]);
        }
    }
    assert forall|a: int| 0 <= a < next.queues.len() implies (
    #[trigger] next.queues[a]).no_duplicates() by {
        assert(traffic.queues[a].no_duplicates());
        if a == r {
            assert(next.queues[a] == traffic.queues[a].push(slot));
            assert forall|i: int, j: int|
                0 <= i < next.queues[a].len() && 0 <= j < next.queues[a].len() && i
                    != j implies next.queues[a][i] != next.queues[a][j] by {
                if i < traffic.queues[a].len() {
                    assert(traffic.queues[a][i] < traffic.vehicles.len());
                }
                if j < traffic.queues[a].len() {
                    assert(traffic.queues[a][j] < traffic.vehicles.len());
                }
            }
        }
    }
}

/// The slot of a new vehicle is not in use.
pub proof fn lemma_next_slot(traffic: Traffic)
    requires
        traffic.free_slots_are_free(),
        traffic.vehicles.len() < usize::MAX || traffic.free_slots.len() > 0,
    ensures
        traffic.free_slots.len() > 0 ==> {
            &&& traffic::next_slot(traffic) < traffic.vehicles.len()
            &&& traffic.vehicles[traffic::next_slot(traffic) as int] is None
        },
        traffic.free_slots.len() == 0 ==> traffic::next_slot(traffic) == traffic.vehicles.len(),
{
    reveal(Traffic::free_slots_are_free);
    if traffic.free_slots.len() > 0 {
        let i = traffic.free_slots.len() - 1;
        assert(traffic.free_slots[i] < traffic.vehicles.len());
    }
}

proof fn lemma_entered_vehicles(traffic: Traffic, city: CityModel, r: int, route: Seq<usize>)
    requires
        traffic.queues_hold_vehicles(city),
        traffic.vehicles_are_queued(city),
        traffic.free_slots_are_free(),
        traffic.vehicles.len() < usize::MAX || traffic.free_slots.len() > 0,
        city.wf(),
        0 <= r < city.roads.len(),
        traffic::is_route(city, route),
        route[0] == r,
    ensures
        traffic::entered(traffic, r, route).vehicles_are_queued(city),
{
    let next = traffic::entered(traffic, r, route);
    let slot = traffic::next_slot(traffic);
    lemma_next_slot(traffic);
    assert(traffic.queues.len() == city.roads.len()) by {
        reveal(Traffic::queues_hold_vehicles);
    }
    assert(traffic::is_trip(city, traffic::fresh(route))) by {
        reveal(traffic::is_route);
    }
    reveal(Traffic::vehicles_are_queued);
    assert forall|v: int|
        #![trigger next.vehicles[v]]
        0 <= v < next.vehicles.len() && next.vehicles[v] is Some implies {
        &&& traffic::is_trip(city, traffic::trip(next, v))
        &&& next.queues[traffic::road_of(traffic::trip(next, v)) as int].contains(v as usize)
    } by {
        if v == slot {
            assert(next.queues[r][traffic.queues[r].len() as int] == slot);
        } else {
            assert(traffic.vehicles[v] is Some);
            lemma_next_road(city, traffic::trip(traffic, v));
            let a = traffic::road_of(traffic::trip(traffic, v)) as int;
            let i = choose|i: int|
                0 <= i < traffic.queues[a].len() && traffic.queues[a][i] == v as usize;
            assert(next.queues[a][i] == v as usize);
        }
    }
}

pub proof fn lemma_allocated_free(traffic: Traffic, trip: Trip)
    requires
        traffic.free_slots_are_free(),
        traffic.vehicles.len() <= usize::MAX,
    ensures
        traffic::allocated(traffic, trip).free_slots_are_free(),
{
    reveal(Traffic::free_slots_are_free);
    let next = traffic::allocated(traffic, trip);
    if traffic.free_slots.len() > 0 {
        let last = traffic.free_slots.len() - 1;
        let slot = traffic.free_slots[last];
        assert(slot < traffic.vehicles.len());
        assert forall|i: int| 0 <= i < next.free_slots.len() implies (
        #[trigger] next.free_slots[i]) < next.vehicles.len()
            && next.vehicles[next.free_slots[i] as int] is None by {
            assert(next.free_slots[i] == traffic.free_slots[i]);
            assert(traffic.free_slots[i] != traffic.free_slots[last]);
        }
        assert forall|v: int|
            #![trigger next.vehicles[v]]
            0 <= v < next.vehicles.len()
                && next.vehicles[v] is None implies next.free_slots.contains(v as usize) by {
            assert(traffic.vehicles[v] is None);
            let i = choose|i: int|
                0 <= i < traffic.free_slots.len() && traffic.free_slots[i] == v as usize;
            assert(next.free_slots[i] == v as usize);
        }
    } else {
        assert forall|v: int|
            #![trigger next.vehicles[v]]
            0 <= v < next.vehicles.len()
                && next.vehicles[v] is None implies next.free_slots.contains(v as usize) by {
            assert(traffic.vehicles[v] is None);
        }
    }
}

/// A new vehicle keeps the traffic in order, where its road has room.
pub proof fn lemma_entered(traffic: Traffic, city: CityModel, r: int, route: Seq<usize>)
    requires
        traffic.wf(city),
        city.wf(),
        0 <= r < city.roads.len(),
        traffic.queues[r].len() < city.roads[r].capacity,
        traffic::is_route(city, route),
        route[0] == r,
        traffic.vehicles.len() < usize::MAX || traffic.free_slots.len() > 0,
    ensures
        traffic::entered(traffic, r, route).wf(city),
{
    let next = traffic::entered(traffic, r, route);
    let slot = traffic::next_slot(traffic);
    let with_vehicle = traffic::allocated(traffic, traffic::fresh(route));
    lemma_next_slot(traffic);
    assert(route.len() > 0) by {
        reveal(traffic::is_route);
    }
    assert(traffic.queues.len() == city.roads.len()) by {
        reveal(Traffic::queues_hold_vehicles);
    }
    lemma_entered_queues(traffic, city, r, route);
    lemma_entered_vehicles(traffic, city, r, route);
    lemma_allocated_free(traffic, traffic::fresh(route));
    lemma_free_slots_only(with_vehicle, next);
    lemma_queued_update(traffic.queues, r, traffic.queues[r].push(slot));
    lemma_queued_capacity(traffic.queues, city.roads);
    if traffic.free_slots.len() > 0 {
        lemma_active_update(traffic.vehicles, slot as int, Some(traffic::fresh(route)));
    } else {
        assert(next.vehicles.drop_last() =~= traffic.vehicles);
    }
    assert forall|a: int| 0 <= a < next.queues.len() implies (#[trigger] next.queues[a]).len()
        <= city.roads[a].capacity by {
        assert(traffic.queues[a].len() <= city.roads[a].capacity);
    }
}

/// The roads among which a vehicle chooses start where its last road ends. They
/// avoid the way back, unless every way leads there.
pub proof fn lemma_choices(city: CityModel, last: usize)
    requires
        city.wf(),
        last < city.roads.len(),
    ensures
        ({
            let pool = traffic::choices(city, last);
            let out = city.intersections[city.roads[last as int].to as int].outgoing;
            &&& pool.len() == 0 <==> out.len() == 0
            &&& forall|i: int|
                0 <= i < pool.len() ==> (#[trigger] pool[i]) < city.roads.len()
                    && city.roads[pool[i] as int].from == city.roads[last as int].to
            &&& (exists|r: usize| #[trigger]
                out.contains(r) && city.roads[r as int].to != city.roads[last as int].from) ==> (
            forall|i: int|
                0 <= i < pool.len() ==> city.roads[(#[trigger] pool[i]) as int].to
                    != city.roads[last as int].from)
        }),
{
    let node = city.roads[last as int].to as int;
    assert(plan::sound_road(city.roads[last as int], last as int, city.sites()));
    city_laws::law_lists_hold_exactly_the_roads(city, node);
    let out = city.intersections[node].outgoing;
    let pred = traffic::leads_on(city, last);
    let onward = out.filter(pred);
    let pool = traffic::choices(city, last);
    assert forall|i: int| 0 <= i < pool.len() implies (#[trigger] pool[i]) < city.roads.len()
        && city.roads[pool[i] as int].from == node by {
        if onward.len() > 0 {
            assert(onward.contains(pool[i]));
            out.lemma_filter_contains_rev(pred, pool[i]);
        }
        assert(out.contains(pool[i]));
    }
    if exists|r: usize| #[trigger]
        out.contains(r) && city.roads[r as int].to != city.roads[last as int].from {
        let r = choose|r: usize| #[trigger]
            out.contains(r) && city.roads[r as int].to != city.roads[last as int].from;
        let i = choose|i: int| 0 <= i < out.len() && out[i] == r;
        assert(pred(out[i]));
        out.lemma_filter_contains(pred, i);
        assert forall|k: int| 0 <= k < pool.len() implies city.roads[(
        #[trigger] pool[k]) as int].to != city.roads[last as int].from by {
            out.lemma_filter_pred(pred, k);
        }
    }
    if out.len() == 0 {
        out.lemma_filter_len(pred);
    }
}

/// A route that goes on stays a route.
pub proof fn lemma_extended_route(
    words: Map<nat, u32>,
    city: CityModel,
    route: Seq<usize>,
    hops: int,
)
    requires
        city.wf(),
        traffic::is_route(city, route),
        0 <= hops,
        route.len() + hops <= MAX_ROUTE_HOPS,
    ensures
        ({
            let full = traffic::extended_route(words, city, route, hops).0;
            &&& traffic::is_route(city, full)
            &&& full[0] == route[0]
            &&& route.len() <= full.len() <= route.len() + hops
        }),
    decreases hops,
{
    assert(route.len() >= 1) by {
        reveal(traffic::is_route);
    }
    if hops > 0 {
        let last = route.last();
        let pool = traffic::choices(city, last);
        assert(last < city.roads.len()) by {
            reveal(traffic::is_route);
            assert(route[route.len() - 1] < city.roads.len());
        }
        if pool.len() > 0 {
            lemma_choices(city, last);
            let pick = random::between(words, 0, pool.len() - 1);
            let longer = route.push(pool[pick]);
            lemma_route_push(city, route, pool[pick]);
            lemma_extended_route(
                random::after_between(words, 0, pool.len() - 1),
                city,
                longer,
                hops - 1,
            );
        }
    }
}

/// A route with one more road that starts where it ends is a route.
pub proof fn lemma_route_push(city: CityModel, route: Seq<usize>, road: usize)
    requires
        traffic::is_route(city, route),
        route.len() < MAX_ROUTE_HOPS,
        road < city.roads.len(),
        city.roads[road as int].from == city.roads[route.last() as int].to,
    ensures
        traffic::is_route(city, route.push(road)),
{
    reveal(traffic::is_route);
    let longer = route.push(road);
    assert forall|j: int| 0 <= j < longer.len() implies #[trigger] longer[j]
        < city.roads.len() by {
        if j < route.len() {
            assert(route[j] < city.roads.len());
        }
    }
    assert forall|i: int, j: int|
        #![trigger longer[i], longer[j]]
        0 <= i && i + 1 == j && j < longer.len() implies city.roads[longer[i] as int].to
        == city.roads[longer[j] as int].from by {
        assert(route[i] == longer[i]);
        if j < route.len() {
            assert(route[j] == longer[j]);
        }
    }
}

/// The route of a new vehicle starts on its road, follows the roads of the
/// city, and has at most `MAX_ROUTE_HOPS` roads.
pub proof fn lemma_drawn_route(words: Map<nat, u32>, city: CityModel, start: int)
    requires
        city.wf(),
        0 <= start < city.roads.len(),
    ensures
        traffic::is_route(city, traffic::drawn_route(words, city, start).0),
        traffic::drawn_route(words, city, start).0[0] == start,
{
    let hops = random::between(words, MIN_ROUTE_HOPS as int, MAX_ROUTE_HOPS as int);
    let rest = random::after_between(words, MIN_ROUTE_HOPS as int, MAX_ROUTE_HOPS as int);
    let first = seq![start as usize];
    assert(traffic::is_route(city, first)) by {
        reveal(traffic::is_route);
    }
    lemma_extended_route(rest, city, first, hops - 1);
}

/// To hold the vehicles of one more place of a queue is to hold that vehicle.
pub proof fn lemma_all_held_step(vehicles: Seq<Option<Trip>>, queue: Seq<usize>, k: int)
    requires
        queue.no_duplicates(),
        0 <= k < queue.len(),
        queue[k] < vehicles.len() <= usize::MAX,
        vehicles[queue[k] as int] is Some,
    ensures
        traffic::all_held(vehicles, queue.take(k))[queue[k] as int] == vehicles[queue[k] as int],
        traffic::all_held(vehicles, queue.take(k + 1)) == traffic::all_held(
            vehicles,
            queue.take(k),
        ).update(queue[k] as int, Some(traffic::held(vehicles[queue[k] as int]->0))),
{
    let slot = queue[k];
    let shorter = queue.take(k);
    let longer = queue.take(k + 1);
    assert forall|v: usize| longer.contains(v) <==> shorter.contains(v) || v == slot by {
        if shorter.contains(v) {
            let i = choose|i: int| 0 <= i < shorter.len() && shorter[i] == v;
            assert(longer[i] == v);
        }
        if v == slot {
            assert(longer[k] == v);
        }
        if longer.contains(v) {
            let i = choose|i: int| 0 <= i < longer.len() && longer[i] == v;
            if i < k {
                assert(shorter[i] == v);
            }
        }
    }
    assert(!shorter.contains(slot));
    assert(traffic::all_held(vehicles, longer) =~= traffic::all_held(vehicles, shorter).update(
        slot as int,
        Some(traffic::held(vehicles[slot as int]->0)),
    ));
}

/// The vehicles of a queue, none of which has been held yet.
pub proof fn lemma_all_held_none(vehicles: Seq<Option<Trip>>, queue: Seq<usize>)
    ensures
        traffic::all_held(vehicles, queue.take(0)) == vehicles,
{
    assert(traffic::all_held(vehicles, queue.take(0)) =~= vehicles);
}

/// No queue holds a slot twice.
pub proof fn lemma_queue_unique(traffic: Traffic, city: CityModel, r: int)
    requires
        traffic.queues_hold_vehicles(city),
        0 <= r < city.roads.len(),
    ensures
        traffic.queues[r].no_duplicates(),
{
    reveal(Traffic::queues_hold_vehicles);
}

/// A tick on a road counts on that road alone.
pub proof fn lemma_process_counts(
    traffic: Traffic,
    city: CityModel,
    phases: Seq<Phase>,
    r: int,
)
    requires
        traffic.wf(city),
        city.wf(),
        0 <= r < city.roads.len(),
        traffic.counts_within(city, r),
    ensures
        traffic::process_road(traffic, city, phases, r).counts_within(city, r + 1),
{
    let next = traffic::process_road(traffic, city, phases, r);
    let road = city.roads[r];
    let ahead = if traffic::green(phases[road.to as int], road.phase_group)
        && traffic::can_advance(traffic, city, r) {
        lemma_advance(traffic, city, r);
        traffic::advance(traffic, r)
    } else {
        traffic
    };
    assert(ahead.queues[r].len() <= city.roads[r].capacity);
    assert forall|a: int|
        #![trigger next.waits[a]]
        #![trigger next.stalls[a]]
        0 <= a < city.roads.len() implies {
        &&& next.waits[a] <= city.roads[a].capacity
        &&& next.stalls[a] <= 1
        &&& a >= r + 1 ==> next.waits[a] == 0 && next.stalls[a] == 0
    } by {
        assert(traffic.waits[a] <= city.roads[a].capacity);
        assert(traffic.stalls[a] <= 1);
    }
}

/// A new vehicle does not touch the counts of a tick, and has not waited.
pub proof fn lemma_spawn_counts(
    traffic: Traffic,
    words: Map<nat, u32>,
    city: CityModel,
    config: SimConfig,
    r: int,
    limit: int,
)
    requires
        0 <= limit,
        traffic.wf(city),
        traffic.waits_within(limit),
    ensures
        ({
            let next = traffic::spawn_on_road(traffic, words, city, config, r).0;
            &&& next.waits == traffic.waits
            &&& next.stalls == traffic.stalls
            &&& next.completed == traffic.completed
            &&& next.waits_within(limit)
        }),
{
    let next = traffic::spawn_on_road(traffic, words, city, config, r).0;
    if traffic.free_slots.len() > 0 {
        lemma_next_slot(traffic);
    }
    assert forall|v: int|
        #![trigger next.vehicles[v]]
        0 <= v < next.vehicles.len() && next.vehicles[v] is Some implies traffic::trip(
        next,
        v,
    ).wait_ticks <= limit by {
        if v < traffic.vehicles.len() && traffic.vehicles[v] is Some {
            assert(traffic::trip(traffic, v).wait_ticks <= limit);
        }
    }
}

/// The start of a tick keeps the traffic in order.
pub proof fn lemma_new_tick(traffic: Traffic, city: CityModel)
    requires
        traffic.wf(city),
    ensures
        traffic::new_tick(traffic).wf(city),
        traffic::new_tick(traffic).counts_within(city, 0),
{
    let next = traffic::new_tick(traffic);
    assert(same_places(traffic, next));
    lemma_same_places_queues(traffic, next, city);
    lemma_same_places_vehicles(traffic, next, city);
    lemma_same_places_free(traffic, next);
}

/// An empty city is in order.
pub proof fn lemma_no_traffic(city: CityModel)
    ensures
        traffic::no_traffic(city.roads.len()).wf(city),
        traffic::no_traffic(city.roads.len()).counts_within(city, 0),
        traffic::no_traffic(city.roads.len()).waits_within(0),
{
    let empty = traffic::no_traffic(city.roads.len());
    reveal(Traffic::queues_hold_vehicles);
    reveal(Traffic::vehicles_are_queued);
    reveal(Traffic::free_slots_are_free);
    lemma_nothing_queued(empty.queues);
}

proof fn lemma_nothing_queued(queues: Seq<Seq<usize>>)
    requires
        forall|r: int| 0 <= r < queues.len() ==> (#[trigger] queues[r]).len() == 0,
    ensures
        traffic::queued(queues) == 0,
    decreases queues.len(),
{
    if queues.len() > 0 {
        assert(queues[queues.len() - 1].len() == 0);
        assert forall|r: int| 0 <= r < queues.drop_last().len() implies (
        #[trigger] queues.drop_last()[r]).len() == 0 by {
            assert(queues[r].len() == 0);
        }
        lemma_nothing_queued(queues.drop_last());
    }
}

/// A sum over the first numbers, one at a time.
pub proof fn lemma_total_take(counts: Seq<nat>, k: int)
    requires
        0 <= k < counts.len(),
    ensures
        traffic::total(counts.take(k + 1)) == traffic::total(counts.take(k)) + counts[k],
{
    assert(counts.take(k + 1).drop_last() =~= counts.take(k));
}

/// A sum is at most the largest possible number times their count.
pub proof fn lemma_total_bound(counts: Seq<nat>, limit: nat)
    requires
        forall|i: int| 0 <= i < counts.len() ==> #[trigger] counts[i] <= limit,
    ensures
        traffic::total(counts) <= limit * counts.len(),
    decreases counts.len(),
{
    if counts.len() > 0 {
        let rest = counts.drop_last();
        assert forall|i: int| 0 <= i < rest.len() implies #[trigger] rest[i] <= limit by {
            assert(counts[i] <= limit);
        }
        lemma_total_bound(rest, limit);
        assert(counts[counts.len() - 1] <= limit);
        assert(limit * counts.len() == limit * rest.len() + limit) by (nonlinear_arith)
            requires
                counts.len() == rest.len() + 1,
        ;
    }
}

/// No road holds more than 27 vehicles.
pub proof fn lemma_capacity(city: CityModel, r: int)
    requires
        city.wf(),
        0 <= r < city.roads.len(),
    ensures
        5 <= city.roads[r].capacity <= 27,
{
    assert(plan::sound_road(city.roads[r], r, city.sites()));
}

/// The counts of a tick are small: at most 27 waits and one stall per road.
pub proof fn lemma_tick_counts(traffic: Traffic, city: CityModel)
    requires
        city.wf(),
        traffic.wf(city),
        traffic.counts_within(city, city.roads.len() as int),
    ensures
        traffic::waits_this_tick(traffic) <= 27 * city.roads.len(),
        traffic::stalls_this_tick(traffic) <= city.roads.len(),
        forall|r: int| 0 <= r < city.roads.len() ==> #[trigger] traffic.waits[r] <= 27,
        forall|r: int| 0 <= r < city.roads.len() ==> #[trigger] traffic.stalls[r] <= 1,
{
    assert forall|r: int| 0 <= r < city.roads.len() implies #[trigger] traffic.waits[r]
        <= 27 by {
        lemma_capacity(city, r);
    }
    lemma_total_bound(traffic.waits, 27);
    lemma_total_bound(traffic.stalls, 1);
}

} // verus!
