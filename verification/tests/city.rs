use rand::rngs::StdRng;
use rand::SeedableRng;
use traffic_sim_core::city::{
    add_road, arterial_chance, blend_intensity, classify_road, compute_zone_weights,
    coordinate_gap, generate_city, grid_points, has_road, hub_influence, length_from, make_road,
    place_hubs, shortcut_chance, spare_down, spare_right, square_distance, zone_weight_at,
    CENTRAL_WEIGHT, CORE_ARTERIAL_PROB, HUB_WEIGHT, JITTER_PART, MIN_FALLOFF, MIN_INTENSITY,
    OUTSKIRTS_WEIGHT, SHORTCUT_BASE, SHORTCUT_GAIN,
};
use traffic_sim_core::decay::{decay_of, distance_of, square_root};
use traffic_sim_core::fixed::{CERTAIN, ONE};
use traffic_sim_core::random::{draw_between, draw_chance};
use traffic_sim_core::{City, CityGenParams, Intersection, PhaseGroup, Road, RoadClass};

/// A float in parts of `ONE`.
fn parts(x: f32) -> u64 {
    (x as f64 * ONE as f64) as u64
}

/// A fixed-point number as a float.
fn unit(x: u64) -> f32 {
    (x as f64 / ONE as f64) as f32
}

/// A falloff that leaves everything but the hubs themselves without weight.
const POINT_FALLOFF: u64 = 0;

fn road_pairs(city: &City) -> Vec<(usize, usize)> {
    city.roads.iter().map(|r| (r.from, r.to)).collect()
}

#[test]
fn same_seed_same_city() {
    let params = CityGenParams::default();
    let a = generate_city(42, &params);
    let b = generate_city(42, &params);
    assert_eq!(a.roads.len(), b.roads.len());
    assert_eq!(a.intersections.len(), b.intersections.len());
    assert_eq!(a.hub_centers, b.hub_centers);
    for (ra, rb) in a.roads.iter().zip(b.roads.iter()) {
        assert_eq!(ra.from, rb.from);
        assert_eq!(ra.to, rb.to);
        assert!((unit(ra.base_intensity) - unit(rb.base_intensity)).abs() < 1e-6);
    }
}

#[test]
fn different_seed_likely_different_city() {
    let params = CityGenParams::default();
    let a = generate_city(1, &params);
    let b = generate_city(2, &params);
    assert_ne!(a.roads.len(), b.roads.len());
}

#[test]
fn grid_roads_are_bidirectional() {
    let params = CityGenParams {
        grid_w: 3,
        grid_h: 3,
        extra_road_prob: 0,
        prune_prob: 0,
        ..Default::default()
    };
    let city = generate_city(7, &params);
    assert_eq!(city.roads.len(), 24);
    for i in &city.intersections {
        assert!(!i.outgoing.is_empty());
    }
}

#[test]
fn zone_weights_are_bounded_and_peak_near_hubs() {
    let params = CityGenParams {
        grid_w: 6,
        grid_h: 6,
        num_hubs: 1,
        hub_falloff: parts(2.0),
        ..Default::default()
    };
    let city = generate_city(3, &params);
    for i in &city.intersections {
        assert!(unit(i.zone_weight) >= 0.0 && unit(i.zone_weight) <= 1.0);
    }
    let (hx, hy) = city.hub_centers[0];
    let hub_id = (hy as usize) * params.grid_w + hx as usize;
    let hub_weight = unit(city.intersections[hub_id].zone_weight);
    assert!(hub_weight > 0.99);
    let far = city
        .intersections
        .iter()
        .map(|i| unit(i.zone_weight))
        .fold(f32::INFINITY, f32::min);
    assert!(far < hub_weight * 0.5);
}

#[test]
fn arterial_roads_cluster_near_hubs() {
    let params = CityGenParams {
        grid_w: 6,
        grid_h: 6,
        num_hubs: 1,
        hub_falloff: parts(1.5),
        prune_prob: 0,
        extra_road_prob: 0,
        ..Default::default()
    };
    let city = generate_city(21, &params);
    let mut arterial_weight_sum = 0.0f32;
    let mut arterial_count = 0;
    let mut local_weight_sum = 0.0f32;
    let mut local_count = 0;
    for r in &city.roads {
        let w = (unit(city.intersections[r.from].zone_weight)
            + unit(city.intersections[r.to].zone_weight))
            / 2.0;
        match r.class {
            RoadClass::Arterial => {
                arterial_weight_sum += w;
                arterial_count += 1;
            }
            RoadClass::Local => {
                local_weight_sum += w;
                local_count += 1;
            }
            RoadClass::Collector => {}
        }
    }
    assert!(arterial_count > 0, "expected at least one arterial road");
    assert!(local_count > 0, "expected at least one local road");
    let arterial_avg = arterial_weight_sum / arterial_count as f32;
    let local_avg = local_weight_sum / local_count as f32;
    assert!(
        arterial_avg > local_avg,
        "arterial avg zone_weight {} should exceed local avg {}",
        arterial_avg,
        local_avg
    );
}

#[test]
fn num_hubs_zero_falls_back_to_center_hub() {
    let params = CityGenParams { grid_w: 5, grid_h: 5, num_hubs: 0, ..Default::default() };
    let city = generate_city(9, &params);
    assert_eq!(city.hub_centers.len(), 1);
    assert_eq!(city.hub_centers[0], (2, 2));
}

#[test]
fn default_parameters_are_the_documented_ones() {
    let params = CityGenParams::default();
    assert_eq!((params.grid_w, params.grid_h, params.num_hubs), (6, 6, 2));
    let certain = CERTAIN as f64;
    assert_eq!(params.extra_road_prob as f64 / certain, 0.08);
    assert_eq!(params.arterial_prob as f64 / certain, 0.6);
    assert_eq!(params.prune_prob as f64 / certain, 0.15);
    let range = |r: (i64, i64)| (unit(r.0 as u64), unit(r.1 as u64));
    assert_eq!(range(params.arterial_intensity), (0.7, 1.0));
    assert_eq!(range(params.collector_intensity), (0.35, 0.65));
    assert_eq!(range(params.local_intensity), (0.05, 0.3));
    assert_eq!(unit(params.hub_falloff), 2.5);
}

#[test]
fn thresholds_are_the_documented_ones() {
    assert_eq!(unit(HUB_WEIGHT), 0.6);
    assert_eq!(unit(CENTRAL_WEIGHT), 0.35);
    assert_eq!(unit(OUTSKIRTS_WEIGHT), 0.3);
    assert_eq!(unit(JITTER_PART), 0.3);
    assert_eq!(unit(MIN_FALLOFF), 0.01);
    assert_eq!(unit(MIN_INTENSITY), 0.02);
    assert_eq!(unit(SHORTCUT_BASE), 0.3);
    assert_eq!(unit(SHORTCUT_GAIN), 1.7);
    assert_eq!(CORE_ARTERIAL_PROB as f64 / CERTAIN as f64, 0.85);
}

#[test]
fn cloned_parameters_are_equal() {
    let params = CityGenParams { grid_w: 4, prune_prob: 17, ..Default::default() };
    let copy = params.clone();
    assert_eq!((copy.grid_w, copy.grid_h), (4, 6));
    assert_eq!(copy.prune_prob, 17);
    assert_eq!(copy.hub_falloff, params.hub_falloff);
    assert_eq!(copy.local_intensity, params.local_intensity);
}

#[test]
fn roots_are_rounded_down() {
    for (n, r) in [(0u128, 0u128), (1, 1), (3, 1), (4, 2), (24, 4), (25, 5)] {
        assert_eq!(square_root(n), r);
    }
    assert_eq!(square_root(u128::MAX), u64::MAX as u128);
    assert_eq!(distance_of(0), 0);
    assert_eq!(distance_of(25), 5 * ONE as u128);
    assert!((distance_of(2) as f64 / ONE as f64 - 2f64.sqrt()).abs() < 1e-8);
}

#[test]
fn decay_is_exponential() {
    assert_eq!(decay_of(0), ONE);
    assert_eq!(decay_of(32 * ONE as u128), 0);
    assert_eq!(decay_of(u128::MAX), 0);
    for k in 0..3200u128 {
        let x = k * ONE as u128 / 100;
        let expected = (-(x as f64) / ONE as f64).exp() * ONE as f64;
        assert!((decay_of(x) as f64 - expected).abs() < 3.0);
    }
}

#[test]
fn influence_decays_with_the_distance() {
    assert_eq!(hub_influence(0, parts(2.5)), ONE);
    for falloff in [0.0f32, 0.01, 0.3, 1.5, 2.5, 40.0] {
        for d in 0..2000u128 {
            let dist = (d as f32).sqrt();
            let expected = (-dist / falloff.max(0.01)).exp();
            let influence = unit(hub_influence(distance_of(d), parts(falloff)));
            assert!((influence - expected).abs() < 1e-6);
        }
    }
    // A hub reaches beyond the default grid.
    let far = unit(hub_influence(distance_of(51), CityGenParams::default().hub_falloff));
    assert!((far - 0.0575).abs() < 1e-4);
}

#[test]
fn square_distance_is_euclidean() {
    assert_eq!(square_distance(1, 2, (4, -2)), 25);
    assert_eq!(square_distance(-7, 3, (-7, 3)), 0);
    let far = square_distance(i32::MAX, i32::MAX, (i32::MIN, i32::MIN));
    assert_eq!(far, 2 * 4294967295 * 4294967295);
}

#[test]
fn zone_weight_is_the_largest_influence() {
    let falloff = parts(2.0);
    let hubs = vec![(0, 0), (3, 0)];
    let at = |d: u128| hub_influence(distance_of(d), falloff);
    assert_eq!(zone_weight_at(0, 0, &hubs, falloff), ONE);
    assert_eq!(zone_weight_at(1, 0, &hubs, falloff), at(1));
    assert_eq!(zone_weight_at(2, 0, &hubs, falloff), at(1));
    assert_eq!(zone_weight_at(1, 1, &hubs, falloff), at(2));
    assert_eq!(zone_weight_at(5, 0, &hubs, falloff), at(4));
    assert_eq!(zone_weight_at(9, 9, &hubs, falloff), at(117));
    assert_eq!(zone_weight_at(9, 9, &vec![], falloff), ONE);
    assert_eq!(zone_weight_at(1, 0, &hubs, POINT_FALLOFF), 0);
    assert_eq!(zone_weight_at(i32::MAX, i32::MAX, &vec![(i32::MIN, i32::MIN)], falloff), 0);
}

#[test]
fn zone_weights_are_given_to_each_intersection() {
    let mut points = grid_points(3, 1);
    assert_eq!(points.len(), 3);
    compute_zone_weights(&mut points, &vec![(2, 0)], parts(2.5));
    let weights: Vec<f32> = points.iter().map(|p| unit(p.zone_weight)).collect();
    for (weight, dist) in weights.iter().zip([2.0f32, 1.0, 0.0]) {
        assert!((weight - (-dist / 2.5).exp()).abs() < 1e-6);
    }
    assert_eq!(points[2].zone_weight, ONE);
    assert_eq!(points[1].id, 1);
    assert_eq!((points[1].x, points[1].y), (1, 0));
}

#[test]
fn grid_points_go_row_by_row() {
    let points = grid_points(3, 2);
    let places: Vec<(usize, i32, i32)> = points.iter().map(|p| (p.id, p.x, p.y)).collect();
    assert_eq!(places, vec![(0, 0, 0), (1, 1, 0), (2, 2, 0), (3, 0, 1), (4, 1, 1), (5, 2, 1)]);
    assert!(points.iter().all(|p| p.incoming.is_empty() && p.outgoing.is_empty()));
    assert!(grid_points(0, 5).is_empty());
}

#[test]
fn arterial_chance_by_weight() {
    let params = CityGenParams { arterial_prob: CERTAIN / 2, ..Default::default() };
    let high = HUB_WEIGHT + 1;
    assert_eq!(arterial_chance(high, ONE, &params), Some(CORE_ARTERIAL_PROB));
    assert_eq!(arterial_chance(HUB_WEIGHT, ONE, &params).is_some(), true);
    assert_eq!(arterial_chance(0, ONE, &params), Some(CERTAIN / 4));
    assert_eq!(arterial_chance(ONE, 0, &params), Some(CERTAIN / 4));
    assert_eq!(arterial_chance(CENTRAL_WEIGHT, CENTRAL_WEIGHT, &params), None);
    assert!(arterial_chance(CENTRAL_WEIGHT, CENTRAL_WEIGHT + 1, &params).is_some());
    assert_eq!(arterial_chance(0, 0, &params), None);
    let sure = CityGenParams { arterial_prob: CERTAIN, ..Default::default() };
    assert_eq!(arterial_chance(ONE, ONE, &sure), Some(CERTAIN));
}

#[test]
fn certain_draws_settle_the_class() {
    let mut rng = StdRng::seed_from_u64(5);
    let sure = CityGenParams { arterial_prob: CERTAIN, ..Default::default() };
    assert_eq!(classify_road(ONE, ONE, &mut rng, &sure), RoadClass::Arterial);
    assert_eq!(classify_road(0, 0, &mut rng, &sure), RoadClass::Local);
    let never = CityGenParams { arterial_prob: 0, ..Default::default() };
    assert_eq!(classify_road(0, ONE, &mut rng, &never), RoadClass::Collector);
}

#[test]
fn intensity_is_blended_and_jittered() {
    let whole = (0, ONE as i64);
    let half = ONE / 2;
    assert_eq!(blend_intensity(whole, 0, ONE, 0), half - JITTER_PART);
    assert_eq!(blend_intensity(whole, 0, ONE, u32::MAX), half + JITTER_PART);
    assert_eq!(blend_intensity(whole, ONE, ONE, u32::MAX), ONE);
    assert_eq!(blend_intensity(whole, 0, 0, 0), MIN_INTENSITY);
    assert_eq!(blend_intensity((-5, -5), ONE, ONE, 77), MIN_INTENSITY);
    let flat = ONE as i64 / 4;
    assert_eq!(blend_intensity((flat, flat), 123, 456, 789), ONE / 4);
}

#[test]
fn length_spans_its_range() {
    assert_eq!(length_from(0), 80 * ONE);
    assert_eq!(length_from(511), 80 * ONE);
    assert_eq!(length_from(512), 80 * ONE + 140 * 512);
    assert_eq!(length_from(0x8000_0000), 150 * ONE);
    assert!(length_from(u32::MAX) < 220 * ONE);
}

#[test]
fn capacities_by_class() {
    assert_eq!(RoadClass::Arterial.capacity_range(), (18, 27));
    assert_eq!(RoadClass::Collector.capacity_range(), (10, 17));
    assert_eq!(RoadClass::Local.capacity_range(), (5, 9));
}

#[test]
fn gap_has_no_sign() {
    assert_eq!(coordinate_gap(3, 8), 5);
    assert_eq!(coordinate_gap(8, 3), 5);
    assert_eq!(coordinate_gap(i32::MIN, i32::MAX), 4294967295);
}

#[test]
fn roads_follow_their_dominant_axis() {
    let mut points = grid_points(3, 3);
    compute_zone_weights(&mut points, &vec![], POINT_FALLOFF);
    let params = CityGenParams::default();
    let make = |from: usize, to: usize| -> Road {
        make_road(4, from, to, &points, &params, RoadClass::Arterial, 0, 20, 0)
    };
    assert_eq!(make(0, 1).phase_group, PhaseGroup::EastWest);
    assert_eq!(make(0, 3).phase_group, PhaseGroup::NorthSouth);
    assert_eq!(make(0, 4).phase_group, PhaseGroup::NorthSouth);
    assert_eq!(make(0, 5).phase_group, PhaseGroup::EastWest);
    assert_eq!(make(7, 0).phase_group, PhaseGroup::NorthSouth);
    let road = make(0, 5);
    assert_eq!((road.id, road.from, road.to, road.capacity), (4, 0, 5, 20));
    assert_eq!(road.class, RoadClass::Arterial);
    assert_eq!(road.length, 80 * ONE);
    assert_eq!(road.base_intensity, blend_intensity(params.arterial_intensity, ONE, ONE, 0));
}

#[test]
fn a_road_is_listed_at_both_ends() {
    let mut points = grid_points(2, 1);
    compute_zone_weights(&mut points, &vec![], POINT_FALLOFF);
    let mut roads: Vec<Road> = Vec::new();
    let mut rng = StdRng::seed_from_u64(1);
    let params = CityGenParams::default();
    add_road(&mut roads, &mut points, 1, 0, &mut rng, &params);
    assert_eq!(roads.len(), 1);
    assert_eq!((roads[0].id, roads[0].from, roads[0].to), (0, 1, 0));
    assert_eq!(points[1].outgoing, vec![0]);
    assert_eq!(points[0].incoming, vec![0]);
    assert!(points[0].outgoing.is_empty() && points[1].incoming.is_empty());
}

#[test]
fn shortcut_chance_grows_with_the_weight() {
    let params = CityGenParams { extra_road_prob: CERTAIN, ..Default::default() };
    let n = params.grid_w * params.grid_h;
    let share = |scale: u64| CERTAIN * scale as u128 / (ONE as u128 * n as u128);
    assert_eq!(shortcut_chance(0, n, &params), share(SHORTCUT_BASE));
    assert_eq!(shortcut_chance(ONE, n, &params), share(SHORTCUT_BASE + SHORTCUT_GAIN));
    assert!(shortcut_chance(ONE / 3, n, &params) < shortcut_chance(ONE / 2, n, &params));
    let none = CityGenParams { extra_road_prob: 0, ..Default::default() };
    assert_eq!(shortcut_chance(ONE, n, &none), 0);
}

#[test]
fn hubs_lie_on_the_grid() {
    let params = CityGenParams { grid_w: 4, grid_h: 2, num_hubs: 50, ..Default::default() };
    let mut rng = StdRng::seed_from_u64(3);
    let hubs = place_hubs(&mut rng, &params);
    assert_eq!(hubs.len(), 50);
    assert!(hubs.iter().all(|h| 0 <= h.0 && h.0 < 4 && 0 <= h.1 && h.1 < 2));
    assert!(hubs.iter().any(|h| h.0 == 3) && hubs.iter().any(|h| h.0 == 0));
}

#[test]
fn an_empty_grid_has_no_roads() {
    let params = CityGenParams { grid_w: 0, grid_h: 3, ..Default::default() };
    let city = generate_city(8, &params);
    assert!(city.intersections.is_empty() && city.roads.is_empty());
    assert_eq!(city.hub_centers.len(), 2);
    assert!(city.hub_centers.iter().all(|h| h.0 == 0));
}

#[test]
fn a_single_intersection_has_no_shortcut() {
    let params = CityGenParams {
        grid_w: 1,
        grid_h: 1,
        extra_road_prob: CERTAIN << 20,
        ..Default::default()
    };
    let city = generate_city(8, &params);
    assert_eq!(city.intersections.len(), 1);
    assert!(city.roads.is_empty());
}

#[test]
fn certain_shortcuts_join_every_pair() {
    let params = CityGenParams {
        grid_w: 3,
        grid_h: 2,
        extra_road_prob: CERTAIN << 20,
        prune_prob: 0,
        ..Default::default()
    };
    let city = generate_city(4, &params);
    let grid = 14;
    assert_eq!(city.roads.len(), grid + 30);
    let mut expected: Vec<(usize, usize)> = Vec::new();
    for a in 0..6 {
        for b in 0..6 {
            if a != b {
                expected.push((a, b));
            }
        }
    }
    assert_eq!(road_pairs(&city)[grid..].to_vec(), expected);
}

/// A city with no weight but at its middle, where every spare edge is left out.
fn pruned_city(grid_w: usize, grid_h: usize) -> City {
    let params = CityGenParams {
        grid_w,
        grid_h,
        num_hubs: 0,
        hub_falloff: POINT_FALLOFF,
        extra_road_prob: 0,
        prune_prob: CERTAIN,
        ..Default::default()
    };
    generate_city(4, &params)
}

#[test]
fn only_redundant_edges_are_pruned() {
    // A single row or column has no way round.
    assert_eq!(pruned_city(5, 1).roads.len(), 8);
    assert_eq!(pruned_city(1, 5).roads.len(), 8);
    // In three rows and columns every edge is the first or the last.
    assert_eq!(pruned_city(3, 3).roads.len(), 24);
    let city = pruned_city(4, 4);
    let pairs = road_pairs(&city);
    let mut missing: Vec<(usize, usize)> = Vec::new();
    for id in 0..16 {
        if id % 4 < 3 && !pairs.contains(&(id, id + 1)) {
            missing.push((id, id + 1));
        }
        if id < 12 && !pairs.contains(&(id, id + 4)) {
            missing.push((id, id + 4));
        }
    }
    assert_eq!(missing, vec![(5, 6), (5, 9), (7, 11), (13, 14)]);
    assert_eq!(pairs.len(), 40);
}

#[test]
fn redundancy_needs_another_edge_and_a_way_round() {
    let params = CityGenParams { grid_w: 4, grid_h: 4, ..Default::default() };
    let city = pruned_city(4, 4);
    let spare = |x: usize, y: usize| spare_right(&city.roads, &city.intersections, x, y, &params);
    assert!(!spare(0, 1) && !spare(2, 1) && !spare(1, 0));
    assert!(spare(1, 1) && !spare(1, 2) && spare(1, 3));
    let below = |x: usize, y: usize| spare_down(&city.roads, &city.intersections, x, y, &params);
    assert!(!below(1, 0) && !below(1, 2) && !below(0, 1));
    assert!(below(1, 1) && !below(2, 1) && below(3, 1));
}

/// Whether roads lead from intersection 0 to all others and back.
fn is_connected(city: &City) -> bool {
    let reach = |forward: bool| -> bool {
        let mut seen = vec![false; city.intersections.len()];
        let mut open = vec![0];
        seen[0] = true;
        while let Some(node) = open.pop() {
            for r in &city.roads {
                let (from, to) = if forward { (r.from, r.to) } else { (r.to, r.from) };
                if from == node && !seen[to] {
                    seen[to] = true;
                    open.push(to);
                }
            }
        }
        seen.iter().all(|s| *s)
    };
    reach(true) && reach(false)
}

#[test]
fn a_pruned_network_stays_connected() {
    for (w, h) in [(7, 1), (1, 7), (4, 4), (5, 7), (8, 8)] {
        assert!(is_connected(&pruned_city(w, h)));
    }
    let row = CityGenParams {
        grid_w: 7,
        grid_h: 1,
        num_hubs: 0,
        hub_falloff: POINT_FALLOFF,
        extra_road_prob: 0,
        prune_prob: CERTAIN,
        ..Default::default()
    };
    assert!(is_connected(&generate_city(1, &row)));
    for seed in 0..100u64 {
        let params = CityGenParams {
            grid_w: 7,
            grid_h: 6,
            num_hubs: 1,
            hub_falloff: POINT_FALLOFF,
            extra_road_prob: 0,
            prune_prob: CERTAIN / 2,
            ..Default::default()
        };
        let city = generate_city(seed, &params);
        assert!(city.roads.len() < 2 * (6 * 6 + 7 * 5));
        assert!(is_connected(&city));
    }
}

#[test]
fn no_intersection_is_pruned_below_degree_one_along_an_axis() {
    for seed in 0..100u64 {
        let params = CityGenParams {
            grid_w: 7,
            grid_h: 5,
            num_hubs: 1,
            extra_road_prob: 0,
            prune_prob: CERTAIN / 2,
            ..Default::default()
        };
        let city = generate_city(seed, &params);
        for i in &city.intersections {
            let ends: Vec<usize> = i.outgoing.iter().map(|r| city.roads[*r].to).collect();
            assert!(ends.iter().any(|to| to / 7 == i.id / 7));
            assert!(ends.iter().any(|to| to % 7 == i.id % 7));
            assert_eq!(i.incoming.len(), i.outgoing.len());
        }
    }
}

#[test]
fn roads_are_found_by_their_ends() {
    let city = pruned_city(3, 1);
    assert!(has_road(&city.roads, &city.intersections, 0, 1));
    assert!(has_road(&city.roads, &city.intersections, 2, 1));
    assert!(!has_road(&city.roads, &city.intersections, 0, 2));
    assert!(!has_road(&city.roads, &city.intersections, 1, 1));
}

#[test]
fn edges_near_hubs_are_never_pruned() {
    let city = pruned_city(6, 2);
    assert_eq!(city.hub_centers, vec![(3, 1)]);
    let pairs = road_pairs(&city);
    // Both edges are redundant; the second leads to the hub.
    assert!(!pairs.contains(&(7, 8)));
    assert!(pairs.contains(&(8, 9)) && pairs.contains(&(9, 8)));
    assert_eq!(pairs.len(), 30);
}

#[test]
fn full_grid_road_count() {
    for (w, h) in [(1usize, 1usize), (1, 4), (2, 2), (5, 3)] {
        let params = CityGenParams {
            grid_w: w,
            grid_h: h,
            extra_road_prob: 0,
            prune_prob: 0,
            ..Default::default()
        };
        let city = generate_city(11, &params);
        assert_eq!(city.roads.len(), 2 * (h * (w - 1)) + 2 * (w * (h - 1)));
    }
}

#[test]
fn grid_roads_come_in_pairs() {
    let params = CityGenParams { extra_road_prob: 0, ..Default::default() };
    let city = generate_city(17, &params);
    assert_eq!(city.roads.len() % 2, 0);
    for j in 0..city.roads.len() / 2 {
        let out = &city.roads[2 * j];
        let back = &city.roads[2 * j + 1];
        assert_eq!((out.from, out.to), (back.to, back.from));
        assert!(out.to == out.from + 1 || out.to == out.from + 6);
    }
}

#[test]
fn generated_cities_are_well_formed() {
    for seed in 0..20u64 {
        let city = generate_city(seed, &CityGenParams::default());
        assert_eq!(city.seed, seed);
        for (i, node) in city.intersections.iter().enumerate() {
            let node: &Intersection = node;
            assert_eq!(node.id, i);
            assert_eq!((node.x, node.y), ((i % 6) as i32, (i / 6) as i32));
            let all = 0..city.roads.len();
            let out: Vec<usize> = all.clone().filter(|r| city.roads[*r].from == i).collect();
            let inc: Vec<usize> = all.filter(|r| city.roads[*r].to == i).collect();
            assert_eq!(node.outgoing, out);
            assert_eq!(node.incoming, inc);
        }
        for (k, road) in city.roads.iter().enumerate() {
            let (low, high) = road.class.capacity_range();
            assert_eq!(road.id, k);
            assert_ne!(road.from, road.to);
            assert!(low <= road.capacity && road.capacity <= high);
            assert!(MIN_INTENSITY <= road.base_intensity && road.base_intensity <= ONE);
            assert!(80 * ONE <= road.length && road.length < 220 * ONE);
            let a = city.intersections[road.from].zone_weight;
            let b = city.intersections[road.to].zone_weight;
            let local = a <= HUB_WEIGHT && b <= HUB_WEIGHT && a + b <= 2 * CENTRAL_WEIGHT;
            assert_eq!(road.class == RoadClass::Local, local);
        }
    }
}

#[test]
fn weight_falls_off_with_the_distance() {
    let falloff = parts(2.5);
    let hubs = vec![(0, 0)];
    for x in 1..6 {
        assert!(
            zone_weight_at(x, 0, &hubs, falloff) < zone_weight_at(x - 1, 0, &hubs, falloff)
        );
    }
}

#[test]
fn dense_roads_are_busier() {
    let range = CityGenParams::default().collector_intensity;
    let quiet = blend_intensity(range, ONE / 4, ONE / 4, 12345);
    let busy = blend_intensity(range, ONE / 4, ONE / 2, 12345);
    assert!(quiet < busy);
}

#[test]
fn draws_hand_out_the_words_of_the_generator() {
    let mut rng = StdRng::seed_from_u64(99);
    let mut copy = StdRng::seed_from_u64(99);
    assert!(draw_chance(&mut rng, CERTAIN));
    assert!(!draw_chance(&mut rng, 0));
    let first: u64 = rand::Rng::gen(&mut copy);
    let mut again = StdRng::seed_from_u64(99);
    assert!(!draw_chance(&mut again, first as u128));
    let mut again = StdRng::seed_from_u64(99);
    assert!(draw_chance(&mut again, first as u128 + 1));
    let value: u64 = rand::Rng::gen_range(&mut copy, 3..=1000);
    assert_eq!(draw_between(&mut rng, 3, 1000), value as usize);
}

#[test]
fn draws_stay_in_their_range() {
    let mut rng = StdRng::seed_from_u64(7);
    let mut seen = vec![false; 4];
    for _ in 0..200 {
        let value = draw_between(&mut rng, 5, 8);
        assert!(5 <= value && value <= 8);
        seen[value - 5] = true;
    }
    assert!(seen.iter().all(|s| *s));
    assert_eq!(draw_between(&mut rng, 6, 6), 6);
}

#[test]
fn words_of_a_road_are_drawn_in_order() {
    let mut points = grid_points(2, 1);
    compute_zone_weights(&mut points, &vec![(50, 50)], POINT_FALLOFF);
    let params = CityGenParams::default();
    let mut roads: Vec<Road> = Vec::new();
    let mut rng = StdRng::seed_from_u64(31);
    add_road(&mut roads, &mut points, 0, 1, &mut rng, &params);
    let mut copy = StdRng::seed_from_u64(31);
    let jitter: u32 = rand::Rng::gen(&mut copy);
    let capacity: usize = rand::Rng::gen_range(&mut copy, 5..10);
    let length: u32 = rand::Rng::gen(&mut copy);
    assert_eq!(roads[0].class, RoadClass::Local);
    assert_eq!(roads[0].base_intensity, blend_intensity(params.local_intensity, 0, 0, jitter));
    assert_eq!(roads[0].capacity, capacity);
    assert_eq!(roads[0].length, length_from(length));
    let float_length: f32 = {
        let mut copy = StdRng::seed_from_u64(31);
        let _: u32 = rand::Rng::gen(&mut copy);
        let _: usize = rand::Rng::gen_range(&mut copy, 5..10);
        rand::Rng::gen_range(&mut copy, 80.0..220.0)
    };
    assert!((unit(roads[0].length) - float_length).abs() < 1e-3);
}

#[test]
fn jitter_matches_a_float_draw() {
    let range = CityGenParams::default().arterial_intensity;
    let (lo, hi) = (unit(range.0 as u64), unit(range.1 as u64));
    let span = (hi - lo) * 0.3;
    for seed in 0..50u64 {
        let mut rng = StdRng::seed_from_u64(seed);
        let word: u32 = rand::Rng::gen(&mut rng);
        let mut rng = StdRng::seed_from_u64(seed);
        let jitter: f32 = rand::Rng::gen_range(&mut rng, -span..=span);
        let expected = (lo + (hi - lo) * 0.5 + jitter).clamp(0.02, 1.0);
        let intensity = unit(blend_intensity(range, 0, ONE, word));
        assert!((intensity - expected).abs() < 1e-5);
    }
}

#[test]
fn chance_matches_a_float_draw() {
    for seed in 0..200u64 {
        let mut rng = StdRng::seed_from_u64(seed);
        let mut copy = StdRng::seed_from_u64(seed);
        let prune = CityGenParams::default().prune_prob;
        assert_eq!(draw_chance(&mut rng, prune), rand::Rng::gen_bool(&mut copy, 0.15));
    }
}

#[test]
fn the_seed_picks_the_words_of_a_city() {
    let params = CityGenParams { grid_w: 9, grid_h: 7, num_hubs: 3, ..Default::default() };
    for seed in [0u64, 42, u64::MAX] {
        let mut rng = StdRng::seed_from_u64(seed);
        let mut expected: Vec<(i32, i32)> = Vec::new();
        for _ in 0..3 {
            let x: usize = rand::Rng::gen_range(&mut rng, 0..9);
            let y: usize = rand::Rng::gen_range(&mut rng, 0..7);
            expected.push((x as i32, y as i32));
        }
        assert_eq!(generate_city(seed, &params).hub_centers, expected);
    }
}
