//! What each field of an observation shows.

use vstd::arithmetic::div_mod::lemma_fundamental_div_mod;
use vstd::prelude::*;

use crate::city::{CityModel, PhaseGroup};
use crate::city_laws;
use crate::sim;
use crate::sim::{Phase, OBS_PER_INTERSECTION};
use crate::sim_laws;
use crate::tick_laws;
use crate::traffic;
use crate::traffic::{SimModel, Traffic};

verus! {

/// The number of vehicles on each road.
spec fn lengths(traffic: Traffic) -> Seq<nat> {
    Seq::new(traffic.queues.len(), |r: int| traffic.queues[r].len())
}

/// The waits of the vehicles on a road, from the first to the last.
spec fn waits_on(traffic: Traffic, r: int) -> Seq<nat> {
    Seq::new(
        traffic.queues[r].len(),
        |j: int| (traffic.vehicles[traffic.queues[r][j] as int]->0).wait_ticks,
    )
}

/// The sum of the waits of the vehicles on each road.
spec fn waits(traffic: Traffic) -> Seq<nat> {
    Seq::new(traffic.queues.len(), |r: int| traffic::total(waits_on(traffic, r)))
}

/// The values of the roads that lead to intersection `i` and are in `group`, and 0
/// for the others.
spec fn approaching(
    city: CityModel,
    values: Seq<nat>,
    i: int,
    group: PhaseGroup,
) -> Seq<nat> {
    Seq::new(
        values.len(),
        |r: int|
            if city.roads[r].to == i && city.roads[r].phase_group == group {
                values[r]
            } else {
                0
            },
    )
}

/// The fields of an intersection: the vehicles on its north-south approaches and
/// on its east-west approaches, the waits of the vehicles on its north-south
/// approaches and on its east-west approaches.
pub proof fn law_fields_show_queues_and_waits(model: SimModel, i: int)
    requires
        model.wf(),
        0 <= i < model.city.intersections.len(),
    ensures
        ({
            let obs = traffic::observation(model);
            let roads = model.city.roads;
            let queues = model.traffic.queues;
            let vehicles = model.traffic.vehicles;
            let cars = |group: PhaseGroup|
                Seq::new(
                    roads.len(),
                    |r: int|
                        if roads[r].to == i && roads[r].phase_group == group {
                            queues[r].len()
                        } else {
                            0
                        },
                );
            let ticks = |group: PhaseGroup|
                Seq::new(
                    roads.len(),
                    |r: int|
                        if roads[r].to == i && roads[r].phase_group == group {
                            traffic::total(
                                Seq::new(
                                    queues[r].len(),
                                    |j: int| (vehicles[queues[r][j] as int]->0).wait_ticks,
                                ),
                            )
                        } else {
                            0
                        },
                );
            &&& obs.len() == 6 * model.city.intersections.len()
            &&& obs[6 * i] == traffic::total(cars(PhaseGroup::NorthSouth))
            &&& obs[6 * i + 1] == traffic::total(cars(PhaseGroup::EastWest))
            &&& obs[6 * i + 2] == traffic::total(ticks(PhaseGroup::NorthSouth))
            &&& obs[6 * i + 3] == traffic::total(ticks(PhaseGroup::EastWest))
        }),
{
    lemma_shown(model, i);
    let roads = model.city.roads;
    let queues = model.traffic.queues;
    let vehicles = model.traffic.vehicles;
    let cars = |group: PhaseGroup|
        Seq::new(
            roads.len(),
            |r: int|
                if roads[r].to == i && roads[r].phase_group == group {
                    queues[r].len()
                } else {
                    0
                },
        );
    let ticks = |group: PhaseGroup|
        Seq::new(
            roads.len(),
            |r: int|
                if roads[r].to == i && roads[r].phase_group == group {
                    traffic::total(
                        Seq::new(
                            queues[r].len(),
                            |j: int| (vehicles[queues[r][j] as int]->0).wait_ticks,
                        ),
                    )
                } else {
                    0
                },
        );
    assert forall|r: int| 0 <= r < roads.len() implies #[trigger] waits(model.traffic)[r]
        == traffic::total(
        Seq::new(queues[r].len(), |j: int| (vehicles[queues[r][j] as int]->0).wait_ticks),
    ) by {
        assert(waits_on(model.traffic, r) =~= Seq::new(
            queues[r].len(),
            |j: int| (vehicles[queues[r][j] as int]->0).wait_ticks,
        ));
    }
    assert forall|group: PhaseGroup| #[trigger]
        cars(group) == approaching(model.city, lengths(model.traffic), i, group) by {
        assert(cars(group) =~= approaching(model.city, lengths(model.traffic), i, group));
    }
    assert forall|group: PhaseGroup| #[trigger]
        ticks(group) == approaching(model.city, waits(model.traffic), i, group) by {
        assert(ticks(group) =~= approaching(model.city, waits(model.traffic), i, group));
    }
}

proof fn lemma_shown(model: SimModel, i: int)
    requires
        model.wf(),
        0 <= i < model.city.intersections.len(),
    ensures
        ({
            let obs = traffic::observation(model);
            let city = model.city;
            let cars = lengths(model.traffic);
            let ticks = waits(model.traffic);
            &&& obs.len() == 6 * city.intersections.len()
            &&& obs[6 * i] == traffic::total(approaching(city, cars, i, PhaseGroup::NorthSouth))
            &&& obs[6 * i + 1] == traffic::total(
                approaching(city, cars, i, PhaseGroup::EastWest),
            )
            &&& obs[6 * i + 2] == traffic::total(
                approaching(city, ticks, i, PhaseGroup::NorthSouth),
            )
            &&& obs[6 * i + 3] == traffic::total(
                approaching(city, ticks, i, PhaseGroup::EastWest),
            )
        }),
{
    let obs = traffic::observation(model);
    sim_laws::law_observation_has_a_fixed_width(model);
    lemma_fields(model, i, PhaseGroup::NorthSouth);
    lemma_fields(model, i, PhaseGroup::EastWest);
    let base = i * OBS_PER_INTERSECTION;
    assert(obs[base + 0] == traffic::observed(model, i, 0));
    assert(obs[base + 1] == traffic::observed(model, i, 1));
    assert(obs[base + 2] == traffic::observed(model, i, 2));
    assert(obs[base + 3] == traffic::observed(model, i, 3));
}

proof fn lemma_fields(model: SimModel, i: int, group: PhaseGroup)
    requires
        model.wf(),
        0 <= i < model.city.intersections.len(),
    ensures
        ({
            let list = model.city.intersections[i].incoming;
            &&& traffic::approach_queue(model, list, group) == traffic::total(
                approaching(model.city, lengths(model.traffic), i, group),
            )
            &&& traffic::approach_wait(model, list, group) == traffic::total(
                approaching(model.city, waits(model.traffic), i, group),
            )
        }),
{
    let city = model.city;
    let list = city.intersections[i].incoming;
    city_laws::law_lists_hold_exactly_the_roads(city, i);
    assert forall|k: int| 0 <= k < list.len() implies (#[trigger] list[k]) < city.roads.len() by {
        assert(list.contains(list[k]));
    }
    let cars = in_group(city, lengths(model.traffic), group);
    let ticks = in_group(city, waits(model.traffic), group);
    lemma_approach(model, list, group);
    let own_cars = tick_laws::lemma_own_counts(city, cars, i);
    let own_ticks = tick_laws::lemma_own_counts(city, ticks, i);
    assert(own_cars =~= approaching(city, lengths(model.traffic), i, group));
    assert(own_ticks =~= approaching(city, waits(model.traffic), i, group));
}

/// The values of the roads in a group, and 0 for the others.
spec fn in_group(city: CityModel, values: Seq<nat>, group: PhaseGroup) -> Seq<nat> {
    Seq::new(
        values.len(),
        |r: int|
            if city.roads[r].phase_group == group {
                values[r]
            } else {
                0
            },
    )
}

proof fn lemma_approach(model: SimModel, list: Seq<usize>, group: PhaseGroup)
    requires
        model.traffic.queues.len() == model.city.roads.len(),
        forall|k: int| 0 <= k < list.len() ==> (#[trigger] list[k]) < model.city.roads.len(),
    ensures
        traffic::approach_queue(model, list, group) == traffic::total_over(
            in_group(model.city, lengths(model.traffic), group),
            list,
        ),
        traffic::approach_wait(model, list, group) == traffic::total_over(
            in_group(model.city, waits(model.traffic), group),
            list,
        ),
    decreases list.len(),
{
    if list.len() > 0 {
        let rest = list.drop_last();
        assert forall|k: int| 0 <= k < rest.len() implies (#[trigger] rest[k])
            < model.city.roads.len() by {
            assert(list[k] < model.city.roads.len());
        }
        lemma_approach(model, rest, group);
        let last = list[list.len() - 1] as int;
        assert(last < model.city.roads.len());
        let queue = model.traffic.queues[last];
        lemma_queue_wait(model.traffic, queue);
        assert(waits_on(model.traffic, last) =~= waits_of(model.traffic, queue));
    }
}

/// The waits of the vehicles in a queue.
spec fn waits_of(traffic: Traffic, queue: Seq<usize>) -> Seq<nat> {
    Seq::new(queue.len(), |j: int| (traffic.vehicles[queue[j] as int]->0).wait_ticks)
}

proof fn lemma_queue_wait(traffic: Traffic, queue: Seq<usize>)
    ensures
        traffic::queue_wait(traffic, queue) == traffic::total(waits_of(traffic, queue)),
    decreases queue.len(),
{
    if queue.len() > 0 {
        lemma_queue_wait(traffic, queue.drop_last());
        assert(waits_of(traffic, queue).drop_last() =~= waits_of(traffic, queue.drop_last()));
    }
}

/// An intersection that no road of a group leads to shows nothing for that group.
pub proof fn law_a_group_without_approaches_shows_nothing(model: SimModel, i: int)
    requires
        model.wf(),
        0 <= i < model.city.intersections.len(),
    ensures
        ({
            let obs = traffic::observation(model);
            let none = |group: PhaseGroup|
                forall|r: int|
                    0 <= r < model.city.roads.len() && (#[trigger] model.city.roads[r]).to == i
                        ==> model.city.roads[r].phase_group != group;
            &&& none(PhaseGroup::NorthSouth) ==> obs[6 * i] == 0 && obs[6 * i + 2] == 0
            &&& none(PhaseGroup::EastWest) ==> obs[6 * i + 1] == 0 && obs[6 * i + 3] == 0
        }),
{
    lemma_shown(model, i);
    lemma_none(model.city, lengths(model.traffic), i, PhaseGroup::NorthSouth);
    lemma_none(model.city, lengths(model.traffic), i, PhaseGroup::EastWest);
    lemma_none(model.city, waits(model.traffic), i, PhaseGroup::NorthSouth);
    lemma_none(model.city, waits(model.traffic), i, PhaseGroup::EastWest);
}

proof fn lemma_none(city: CityModel, values: Seq<nat>, i: int, group: PhaseGroup)
    requires
        values.len() == city.roads.len(),
    ensures
        (forall|r: int|
            0 <= r < city.roads.len() && (#[trigger] city.roads[r]).to == i
                ==> city.roads[r].phase_group != group) ==> traffic::total(
            approaching(city, values, i, group),
        ) == 0,
{
    let seen = approaching(city, values, i, group);
    if forall|r: int|
        0 <= r < city.roads.len() && (#[trigger] city.roads[r]).to == i
            ==> city.roads[r].phase_group != group {
        crate::traffic_laws::lemma_total_bound(seen, 0);
        assert(0 * seen.len() == 0) by (nonlinear_arith);
    }
}

/// The field before the last is the phase of the intersection: 0 for north-south
/// green and 1 for east-west green.
pub proof fn law_a_field_shows_the_phase(model: SimModel, i: int)
    requires
        0 <= i < model.city.intersections.len(),
    ensures
        model.phases[i] == Phase::NorthSouthGreen ==> traffic::observation(model)[6 * i + 4] == 0,
        model.phases[i] == Phase::EastWestGreen ==> traffic::observation(model)[6 * i + 4] == 1,
{
    sim_laws::law_observation_has_a_fixed_width(model);
    let base = i * OBS_PER_INTERSECTION;
    assert(traffic::observation(model)[base + 4] == traffic::observed(model, i, 4));
}

/// The last field of an intersection is the mean intensity of the roads that lead
/// to it, rounded down, and 0 where none does.
pub proof fn law_the_last_field_is_the_mean_intensity(model: SimModel, i: int)
    requires
        model.wf(),
        0 <= i < model.city.intersections.len(),
    ensures
        ({
            let city = model.city;
            let mean = traffic::observation(model)[6 * i + 5];
            let sum = traffic::total(
                Seq::new(
                    city.roads.len(),
                    |r: int|
                        if city.roads[r].to == i {
                            city.roads[r].base_intensity as nat
                        } else {
                            0
                        },
                ),
            );
            let count = traffic::total(
                Seq::new(
                    city.roads.len(),
                    |r: int|
                        if city.roads[r].to == i {
                            1nat
                        } else {
                            0
                        },
                ),
            );
            &&& count == 0 ==> mean == 0
            &&& count > 0 ==> mean * count <= sum < (mean + 1) * count
        }),
{
    let city = model.city;
    let obs = traffic::observation(model);
    sim_laws::law_observation_has_a_fixed_width(model);
    let base = i * OBS_PER_INTERSECTION;
    assert(obs[base + 5] == traffic::observed(model, i, 5));
    let list = city.intersections[i].incoming;
    city_laws::law_lists_hold_exactly_the_roads(city, i);
    assert forall|k: int| 0 <= k < list.len() implies (#[trigger] list[k]) < city.roads.len() by {
        assert(list.contains(list[k]));
    }
    let all = Seq::new(city.roads.len(), |r: int| city.roads[r].base_intensity as nat);
    let ones = Seq::new(city.roads.len(), |r: int| 1nat);
    lemma_intensities(city, all, ones, list);
    let own = tick_laws::lemma_own_counts(city, all, i);
    let own_ones = tick_laws::lemma_own_counts(city, ones, i);
    assert(own =~= Seq::new(
        city.roads.len(),
        |r: int|
            if city.roads[r].to == i {
                city.roads[r].base_intensity as nat
            } else {
                0
            },
    ));
    assert(own_ones =~= Seq::new(
        city.roads.len(),
        |r: int|
            if city.roads[r].to == i {
                1nat
            } else {
                0
            },
    ));
    let sum = traffic::total(own);
    let count = traffic::total(own_ones);
    if count > 0 {
        lemma_fundamental_div_mod(sum as int, count as int);
        let mean = sum / count;
        assert(mean * count <= sum < (mean + 1) * count) by (nonlinear_arith)
            requires
                sum == count * mean + sum % count,
                0 <= sum % count < count,
        ;
    }
}

proof fn lemma_intensities(city: CityModel, all: Seq<nat>, ones: Seq<nat>, list: Seq<usize>)
    requires
        all == Seq::new(city.roads.len(), |r: int| city.roads[r].base_intensity as nat),
        ones == Seq::new(city.roads.len(), |r: int| 1nat),
        forall|k: int| 0 <= k < list.len() ==> (#[trigger] list[k]) < city.roads.len(),
    ensures
        traffic::intensity_sum(city, list) == traffic::total_over(all, list),
        list.len() == traffic::total_over(ones, list),
    decreases list.len(),
{
    if list.len() > 0 {
        let rest = list.drop_last();
        assert forall|k: int| 0 <= k < rest.len() implies (#[trigger] rest[k])
            < city.roads.len() by {
            assert(list[k] < city.roads.len());
        }
        lemma_intensities(city, all, ones, rest);
        assert(list[list.len() - 1] < city.roads.len());
    }
}

/// The numbers of an observation are those that are handed out, place by place.
pub proof fn law_numbers_keep_their_places(fields: Seq<u128>, k: int)
    ensures
        sim::as_nats(fields).len() == fields.len(),
        0 <= k < fields.len() ==> sim::as_nats(fields)[k] == fields[k],
{
}

} // verus!
