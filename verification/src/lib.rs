//! Traffic on a generated road network.
//!
//! `city` lays out a signalled road network from a seed; `sim` lets vehicles
//! queue on its roads and cross its intersections tick by tick, under a signal
//! phase that the caller picks for each intersection.
//!
//! Fractions are fixed-point numbers (see `fixed`), and every random choice is
//! a function of the words that a seeded generator puts out (see `random`), so
//! that what the library computes is a function of the seed and the parameters.

pub mod fixed;
pub mod decay;
pub mod random;
pub mod city;
pub mod plan;
pub mod city_laws;
pub mod sim;
pub mod traffic;
pub mod traffic_laws;
pub mod sim_laws;
pub mod draw_laws;
pub mod plan_laws;
pub mod tick_laws;
pub mod observation_laws;

pub use city::{City, CityGenParams, Intersection, PhaseGroup, Road, RoadClass};
pub use sim::{SimConfig, Simulation, TickMetrics, OBS_PER_INTERSECTION};
