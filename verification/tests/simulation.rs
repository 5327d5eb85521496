use rand::rngs::StdRng;
use rand::SeedableRng;
use traffic_sim_core::city::{add_road, compute_zone_weights, grid_points};
use traffic_sim_core::fixed::{CERTAIN, ONE};
use traffic_sim_core::sim::{reward_for, spawn_probability, Phase, Vehicle};
use traffic_sim_core::{
    City, CityGenParams, PhaseGroup, Road, SimConfig, Simulation, TickMetrics, OBS_PER_INTERSECTION,
};

/// A spawn scale at which a vehicle enters on every road that has room.
const ALWAYS: u128 = CERTAIN * 64;

fn small(grid_w: usize, grid_h: usize) -> CityGenParams {
    CityGenParams { grid_w, grid_h, ..Default::default() }
}

/// A full grid without shortcuts.
fn plain(grid_w: usize, grid_h: usize) -> CityGenParams {
    CityGenParams { grid_w, grid_h, prune_prob: 0, extra_road_prob: 0, ..Default::default() }
}

fn busy() -> SimConfig {
    SimConfig { spawn_scale: ALWAYS, ..Default::default() }
}

fn parts(count: i128) -> i128 {
    count * ONE as i128
}

#[test]
fn reset_gives_correctly_shaped_observation() {
    let mut sim =
        Simulation::new(1, small(3, 3), SimConfig { max_ticks: 500, ..Default::default() });
    let obs = sim.reset(1);
    assert_eq!(obs.len(), sim.num_intersections() * OBS_PER_INTERSECTION);
}

#[test]
fn step_runs_and_terminates_at_max_ticks() {
    let mut sim =
        Simulation::new(1, small(3, 3), SimConfig { max_ticks: 20, ..Default::default() });
    sim.reset(1);
    let n = sim.num_intersections();
    let mut done = false;
    let mut steps = 0;
    while !done {
        let actions = vec![0u8; n];
        let (obs, reward, d) = sim.step(&actions);
        assert_eq!(obs.len(), n * OBS_PER_INTERSECTION);
        assert!(reward <= 0);
        done = d;
        steps += 1;
        assert!(steps <= 25, "should terminate at max_ticks");
    }
    assert_eq!(steps, 20);
}

#[test]
fn vehicles_spawn_over_time() {
    let mut sim =
        Simulation::new(9, small(4, 4), SimConfig { max_ticks: 200, ..Default::default() });
    sim.reset(9);
    let n = sim.num_intersections();
    let mut saw_activity = false;
    for _ in 0..200 {
        let actions = vec![0u8; n];
        sim.step(&actions);
        if sim.metrics().active_vehicles > 0 {
            saw_activity = true;
        }
    }
    assert!(saw_activity, "expected some vehicles to spawn over 200 ticks");
}

#[test]
fn completed_vehicle_slots_are_reused_not_leaked() {
    let mut sim =
        Simulation::new(5, small(3, 3), SimConfig { max_ticks: 3000, ..Default::default() });
    sim.reset(5);
    let n = sim.num_intersections();
    for _ in 0..3000 {
        let actions = vec![0u8; n];
        sim.step(&actions);
    }
    assert!(
        sim.num_slots() < 3000,
        "expected slot reuse to bound arena growth, got {}",
        sim.num_slots()
    );
}

#[test]
fn queue_indices_stay_valid_after_completions() {
    let mut sim =
        Simulation::new(11, small(3, 3), SimConfig { max_ticks: 1000, ..Default::default() });
    sim.reset(11);
    let n = sim.num_intersections();
    for _ in 0..1000 {
        let actions = vec![0u8; n];
        sim.step(&actions);
        sim.observe();
    }
}

#[test]
fn default_config_is_the_documented_one() {
    let config = SimConfig::default();
    assert_eq!(config.max_ticks, 2000);
    assert_eq!(config.spawn_scale as f64 / CERTAIN as f64, 0.06);
    assert_eq!(config.stall_penalty as i128, parts(3));
    assert_eq!(OBS_PER_INTERSECTION, 6);
}

#[test]
fn actions_pick_phases() {
    assert_eq!(Phase::from_action(0), Phase::NorthSouthGreen);
    assert_eq!(Phase::from_action(1), Phase::EastWestGreen);
    assert_eq!(Phase::from_action(255), Phase::EastWestGreen);
    assert!(Phase::NorthSouthGreen.allows(PhaseGroup::NorthSouth));
    assert!(!Phase::NorthSouthGreen.allows(PhaseGroup::EastWest));
    assert!(Phase::EastWestGreen.allows(PhaseGroup::EastWest));
    assert!(!Phase::EastWestGreen.allows(PhaseGroup::NorthSouth));
}

#[test]
fn reward_weighs_waits_and_stalls() {
    let config = SimConfig::default();
    assert_eq!(reward_for(0, 0, &config), 0);
    assert_eq!(reward_for(7, 0, &config), parts(-7));
    assert_eq!(reward_for(7, 2, &config), parts(-13));
    let bonus = SimConfig { stall_penalty: -(ONE as i64), ..Default::default() };
    assert_eq!(reward_for(1, 5, &bonus), parts(4));
}

#[test]
fn spawn_probability_scales_the_intensity() {
    let sim = Simulation::new(1, plain(2, 1), SimConfig::default());
    let mut road: Road = sim.city.roads[0].clone();
    road.base_intensity = ONE / 4;
    let config = SimConfig { spawn_scale: CERTAIN / 2, ..Default::default() };
    assert_eq!(spawn_probability(&road, &config), CERTAIN / 8);
    road.base_intensity = ONE;
    assert_eq!(spawn_probability(&road, &busy()), ALWAYS);
}

#[test]
fn a_new_simulation_is_empty() {
    let sim = Simulation::new(3, small(4, 3), SimConfig::default());
    assert_eq!(sim.num_intersections(), 12);
    assert_eq!(sim.num_roads(), sim.city.roads.len());
    assert_eq!(sim.num_slots(), 0);
    let obs = sim.observe();
    for i in 0..12 {
        assert_eq!(obs[6 * i..6 * i + 5].to_vec(), vec![0; 5]);
        let list = &sim.city.intersections[i].incoming;
        let sum: u128 = list.iter().map(|r| sim.city.roads[*r].base_intensity as u128).sum();
        let mean = if list.is_empty() { 0 } else { sum / list.len() as u128 };
        assert_eq!(obs[6 * i + 5], mean);
    }
    let m: TickMetrics = sim.metrics();
    assert_eq!((m.active_vehicles, m.completed_vehicles), (0, 0));
    assert_eq!((m.total_wait_ticks, m.stall_events), (0, 0));
    assert_eq!(sim.total_stall_count(), 0);
    assert_eq!(sim.rewards_per_intersection(), vec![0; 12]);
}

#[test]
fn vehicles_enter_where_there_is_room() {
    let mut sim = Simulation::new(2, plain(3, 3), busy());
    let (obs, reward, done) = sim.step(&vec![0; 9]);
    assert_eq!(sim.metrics().active_vehicles, 24);
    assert_eq!(reward, 0);
    assert!(!done);
    let queued: u128 = (0..9).map(|i| obs[6 * i] + obs[6 * i + 1]).sum();
    assert_eq!(queued, 24);
    assert_eq!((obs[0], obs[1]), (1, 1));
    assert_eq!((obs[24], obs[25]), (2, 2));
}

#[test]
fn a_green_signal_lets_one_vehicle_through() {
    let mut sim = Simulation::new(2, plain(2, 1), busy());
    sim.step(&[1, 1]);
    let (obs, reward, _) = sim.step(&[1, 1]);
    assert_eq!(reward, parts(-1));
    let m = sim.metrics();
    assert_eq!((m.active_vehicles, m.completed_vehicles), (4, 0));
    assert_eq!((m.total_wait_ticks, m.stall_events), (1, 0));
    // The road to intersection 1 holds the vehicle that turned and a new one;
    // that to intersection 0 the one that waited and a new one.
    assert_eq!(obs[0..5].to_vec(), vec![0, 2, 0, 1, 1]);
    assert_eq!(obs[6..11].to_vec(), vec![0, 2, 0, 0, 1]);
    assert_eq!(sim.rewards_per_intersection(), vec![parts(-1), 0]);
}

#[test]
fn a_stop_counts_as_one_stall_once_the_vehicle_moves() {
    let mut sim = Simulation::new(2, plain(2, 1), busy());
    sim.step(&[0, 0]);
    let (obs, reward, _) = sim.step(&[0, 0]);
    assert_eq!(reward, parts(-2));
    assert_eq!(sim.metrics().stall_events, 0);
    assert_eq!(obs[0..5].to_vec(), vec![0, 2, 0, 1, 0]);
    let (_, reward, _) = sim.step(&[1, 1]);
    assert_eq!(reward, parts(-9));
    let m = sim.metrics();
    assert_eq!((m.stall_events, m.total_wait_ticks, m.active_vehicles), (2, 3, 6));
    assert_eq!(sim.total_stall_count(), 2);
    assert_eq!(sim.rewards_per_intersection(), vec![parts(-5), parts(-4)]);
}

#[test]
fn a_red_signal_fills_the_roads_to_their_capacity() {
    let mut sim = Simulation::new(2, plain(2, 1), busy());
    let capacity: usize = sim.city.roads.iter().map(|r| r.capacity).sum();
    for _ in 0..40 {
        sim.step(&[0, 0]);
    }
    assert_eq!(sim.metrics().active_vehicles, capacity);
    assert_eq!(sim.num_slots(), capacity);
    let (obs, reward, _) = sim.step(&[0, 0]);
    assert_eq!(reward, parts(-(capacity as i128)));
    assert_eq!(obs[1] as usize, sim.city.roads[1].capacity);
    assert_eq!(obs[7] as usize, sim.city.roads[0].capacity);
}

#[test]
fn a_jammed_next_road_holds_a_green_one() {
    let mut sim = Simulation::new(2, plain(2, 1), busy());
    for _ in 0..40 {
        sim.step(&[0, 0]);
    }
    let full = sim.metrics().active_vehicles;
    // Both roads are full of vehicles at the start of their routes, so neither
    // has room for the other.
    let (_, reward, _) = sim.step(&[1, 1]);
    assert_eq!(reward, parts(-(full as i128)));
    let m = sim.metrics();
    assert_eq!((m.active_vehicles, m.completed_vehicles, m.stall_events), (full, 0, 0));
}

#[test]
fn completed_vehicles_leave() {
    let mut sim = Simulation::new(2, plain(2, 1), busy());
    let mut completed = 0;
    for _ in 0..60 {
        let before = sim.metrics().active_vehicles;
        sim.step(&[1, 1]);
        let m = sim.metrics();
        assert!(m.active_vehicles + m.completed_vehicles >= before);
        assert!(m.active_vehicles + m.completed_vehicles <= before + sim.num_roads());
        completed += m.completed_vehicles;
    }
    assert!(completed > 0);
}

#[test]
fn the_same_seed_gives_the_same_run() {
    let mut a = Simulation::new(77, small(3, 3), SimConfig::default());
    let mut b = Simulation::new(77, small(3, 3), SimConfig::default());
    for t in 0..300u32 {
        let actions: Vec<u8> = (0..9).map(|i| ((t / 5 + i) % 2) as u8).collect();
        assert_eq!(a.step(&actions), b.step(&actions));
    }
}

#[test]
fn reset_starts_over() {
    let mut a = Simulation::new(1, small(3, 3), busy());
    for _ in 0..10 {
        a.step(&vec![1; 9]);
    }
    let obs = a.reset(8);
    let mut b = Simulation::new(8, small(3, 3), busy());
    assert_eq!(obs, b.observe());
    assert_eq!(a.city.seed, 8);
    for _ in 0..10 {
        assert_eq!(a.step(&vec![0; 9]), b.step(&vec![0; 9]));
    }
}

#[test]
fn the_stall_penalty_does_not_affect_the_dynamics() {
    let config = SimConfig { spawn_scale: CERTAIN / 2, ..Default::default() };
    let harsh = SimConfig { stall_penalty: ONE as i64 * 50, ..config };
    let mut a = Simulation::new(6, small(3, 3), config);
    let mut b = Simulation::new(6, small(3, 3), harsh);
    let mut differs = false;
    for t in 0..100u32 {
        let actions = vec![(t / 3 % 2) as u8; 9];
        let (obs_a, reward_a, done_a) = a.step(&actions);
        let (obs_b, reward_b, done_b) = b.step(&actions);
        assert_eq!((obs_a, done_a), (obs_b, done_b));
        let stalls = a.metrics().stall_events as i128;
        assert_eq!(reward_b, reward_a - parts(47 * stalls));
        differs = differs || reward_a != reward_b;
    }
    assert!(differs);
}

#[test]
fn local_rewards_add_up() {
    let mut sim = Simulation::new(6, small(4, 4), busy());
    for t in 0..50u32 {
        let (_, reward, _) = sim.step(&vec![(t / 4 % 2) as u8; 16]);
        let sum: i128 = sim.rewards_per_intersection().iter().sum();
        assert_eq!(sum, reward);
    }
}

#[test]
fn routes_avoid_turning_back() {
    let sim = Simulation::new(2, plain(3, 1), SimConfig::default());
    let pairs: Vec<(usize, usize)> = sim.city.roads.iter().map(|r| (r.from, r.to)).collect();
    assert_eq!(pairs, vec![(0, 1), (1, 0), (1, 2), (2, 1)]);
    assert_eq!(Simulation::route_choices(&sim.city, 0), vec![2]);
    assert_eq!(Simulation::route_choices(&sim.city, 3), vec![1]);
    // At a dead end the only way on is back.
    assert_eq!(Simulation::route_choices(&sim.city, 2), vec![3]);
    let grid = Simulation::new(2, plain(3, 3), SimConfig::default());
    let to_centre = grid.city.roads.iter().position(|r| (r.from, r.to) == (1, 4)).unwrap();
    let ends: Vec<usize> = Simulation::route_choices(&grid.city, to_centre)
        .iter()
        .map(|r| grid.city.roads[*r].to)
        .collect();
    assert_eq!(ends, vec![3, 5, 7]);
}

#[test]
fn no_way_on_ends_a_route() {
    let mut intersections = grid_points(2, 1);
    compute_zone_weights(&mut intersections, &vec![], 0);
    let mut roads: Vec<Road> = Vec::new();
    let mut rng = StdRng::seed_from_u64(1);
    let params = CityGenParams::default();
    add_road(&mut roads, &mut intersections, 0, 1, &mut rng, &params);
    let city = City { intersections, roads, seed: 0, hub_centers: vec![] };
    assert!(Simulation::route_choices(&city, 0).is_empty());
}

#[test]
fn early_ticks_can_be_counted() {
    let mut sim = Simulation::new(2, plain(2, 2), busy());
    for _ in 0..100 {
        assert!(sim.can_step());
        sim.step(&[0, 0, 0, 0]);
    }
    assert!(sim.can_step());
}

#[test]
fn slots_never_outnumber_the_places_on_the_roads() {
    let mut sim = Simulation::new(14, small(3, 3), busy());
    let places: usize = sim.city.roads.iter().map(|r| r.capacity).sum();
    for t in 0..400u32 {
        sim.step(&vec![(t / 7 % 2) as u8; 9]);
        let m = sim.metrics();
        assert!(m.active_vehicles <= sim.num_slots());
        assert!(sim.num_slots() <= places);
        assert!(places <= 27 * sim.num_roads());
    }
}

#[test]
fn a_city_without_intersections_runs() {
    let mut sim =
        Simulation::new(2, plain(0, 0), SimConfig { max_ticks: 1, ..Default::default() });
    assert!(sim.observe().is_empty());
    let (obs, reward, done) = sim.step(&[]);
    assert!(obs.is_empty() && done);
    assert_eq!(reward, 0);
    assert!(sim.rewards_per_intersection().is_empty());
}

#[test]
fn every_vehicle_is_seen_once() {
    let mut sim = Simulation::new(21, small(4, 3), busy());
    for t in 0..80u32 {
        let (obs, _, _) = sim.step(&vec![(t / 6 % 2) as u8; 12]);
        let m = sim.metrics();
        let queued: u128 = (0..12).map(|i| obs[6 * i] + obs[6 * i + 1]).sum();
        let waited: u128 = (0..12).map(|i| obs[6 * i + 2] + obs[6 * i + 3]).sum();
        assert_eq!(queued, m.active_vehicles as u128);
        assert_eq!(waited, m.total_wait_ticks as u128);
    }
}

#[test]
fn slots_match_the_busiest_time() {
    let mut sim = Simulation::new(33, small(3, 3), SimConfig::default());
    let mut busiest = 0;
    let mut completed = 0;
    for t in 0..500u32 {
        sim.step(&vec![(t / 9 % 2) as u8; 9]);
        let m = sim.metrics();
        busiest = busiest.max(m.active_vehicles);
        completed += m.completed_vehicles;
        assert_eq!(sim.num_slots(), busiest);
    }
    assert!(completed > 0);
}

#[test]
fn counts_fit() {
    let mut sim = Simulation::new(2, plain(2, 2), busy());
    for _ in 0..50 {
        sim.step(&[1, 0, 1, 0]);
        assert!(sim.metrics_fit() && sim.stall_count_fits());
    }
}

fn vehicle() -> Vehicle {
    Vehicle { route: vec![0], route_pos: 0, wait_ticks: 4, is_stopped: false, stall_count: 0 }
}

#[test]
fn a_freed_slot_is_used_next() {
    let mut sim = Simulation::new(2, plain(2, 1), SimConfig::default());
    assert_eq!(sim.alloc_vehicle(vehicle()), 0);
    assert_eq!(sim.alloc_vehicle(vehicle()), 1);
    assert_eq!(sim.alloc_vehicle(vehicle()), 2);
    sim.free_vehicle(2);
    sim.free_vehicle(0);
    assert_eq!((sim.num_slots(), sim.metrics().active_vehicles), (3, 1));
    assert_eq!(sim.metrics().total_wait_ticks, 4);
    assert_eq!(sim.alloc_vehicle(vehicle()), 0);
    assert_eq!(sim.alloc_vehicle(vehicle()), 2);
    assert_eq!(sim.alloc_vehicle(vehicle()), 3);
    assert_eq!((sim.num_slots(), sim.metrics().active_vehicles), (4, 4));
}

#[test]
fn the_city_is_that_of_the_seed() {
    let sim = Simulation::new(19, small(4, 4), SimConfig::default());
    assert_eq!(sim.city().seed, 19);
    assert_eq!(sim.city().roads.len(), sim.num_roads());
}
