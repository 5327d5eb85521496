# traffic_sim_core

A verified traffic simulation on generated road networks.

- `src/city.rs` lays out a city from a seed: a grid of signalled intersections
  with hubs, road classes and shortcuts. `src/plan.rs` says what city a seed and
  a set of parameters stand for, and `src/city_laws.rs` what holds of every city.
- `src/sim.rs` runs vehicles through a city tick by tick. `src/traffic.rs` says
  what a tick does, `src/traffic_laws.rs` proves that it keeps the vehicles, the
  queues and the slots in step, and `src/sim_laws.rs` what holds of every run.
- `src/random.rs` holds the seeded generator, `src/fixed.rs` the fixed-point
  numbers, `src/decay.rs` their square root and exponential.
- `app/` is the Python module `traffic_sim`.

All numbers with a fraction are fixed-point: weights, intensities, lengths and
rewards in parts of 2^32, probabilities in parts of 2^64.
