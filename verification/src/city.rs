//! Procedural city generation.
//!
//! Lays out a grid of intersections joined by two-way roads, so that the
//! north-south and east-west signal phases of an intersection are well defined,
//! and gives the grid the structure of a city:
//!
//! - Hubs: a few intersections are dense centres. The zone weight of an
//!   intersection is the influence of the strongest hub on it, which falls off
//!   with the distance.
//! - Road classes: whether a road is arterial, collector or local follows from
//!   the zone weights of its two ends.
//! - Connectivity: a redundant grid edge far from the hubs may be left out, and
//!   an intersection near a hub is more likely to get an extra shortcut road.
//!
//! Weights, intensities and lengths are fixed-point numbers in parts of `ONE`,
//! probabilities in parts of `CERTAIN`.

use rand::rngs::StdRng;
use vstd::prelude::*;

use crate::city_laws;
use crate::decay::{decay_of, distance_of};
use crate::fixed::{CERTAIN, MAX_SCALE, ONE};
use crate::plan;
use crate::random;
use crate::random::{draw_between, draw_chance, next_word, seed_rng};

verus! {

/// Above this weight an intersection counts as close to a hub: 0.6.
pub const HUB_WEIGHT: u64 = 0x9999_9a00;

/// Above this mean weight of its ends a road counts as central: 0.35.
pub const CENTRAL_WEIGHT: u64 = 0x5999_9980;

/// Below this mean weight of its ends a grid edge may be left out: 0.3.
pub const OUTSKIRTS_WEIGHT: u64 = 0x4ccc_cd00;

/// The least probability that a road between two hubs is arterial: 0.85.
pub const CORE_ARTERIAL_PROB: u128 = 0xd999_9999_9999_9800;

/// The part of an intensity range that the jitter spans on each side: 0.3.
pub const JITTER_PART: u64 = 0x4ccc_cd00;

/// The least falloff of a hub: 0.01.
pub const MIN_FALLOFF: u64 = 0x28f_5c28;

/// The least intensity of a road: 0.02.
pub const MIN_INTENSITY: u64 = 0x51e_b850;

/// The shortcut scale of an intersection of weight 0: 0.3.
pub const SHORTCUT_BASE: u64 = 0x4ccc_cd00;

/// What the shortcut scale gains from weight 0 to weight 1: 1.7.
pub const SHORTCUT_GAIN: u64 = 0x1_b333_3400;

/// The largest value of the 23 leading bits of a word.
pub const MAX_FRACTION: u64 = 0x7f_ffff;

#[derive(Debug, Clone, Copy, PartialEq, Eq, Structural)]
pub enum RoadClass {
    /// Backbone roads between intersections close to a hub: the highest
    /// capacity and intensity.
    Arterial,
    /// Feeds local streets into arterials: medium capacity and intensity.
    Collector,
    /// Everything else: the lowest capacity and intensity.
    Local,
}

/// The phase group of a road at the intersection it leads to. A road that is
/// not along one axis of the grid belongs to its dominant axis.
#[derive(Debug, Clone, Copy, PartialEq, Eq, Structural)]
pub enum PhaseGroup {
    NorthSouth,
    EastWest,
}

#[derive(Debug, Clone)]
pub struct Road {
    pub id: usize,
    pub from: usize,
    pub to: usize,
    /// The length, in parts of `ONE`.
    pub length: u64,
    pub capacity: usize,
    pub class: RoadClass,
    /// The spawn-rate multiplier, in parts of `ONE`.
    pub base_intensity: u64,
    pub phase_group: PhaseGroup,
}

#[derive(Debug, Clone)]
pub struct Intersection {
    pub id: usize,
    pub x: i32,
    pub y: i32,
    /// The roads that end here: vehicles on them queue for this intersection.
    pub incoming: Vec<usize>,
    /// The roads that start here.
    pub outgoing: Vec<usize>,
    /// The influence of the strongest hub, in parts of `ONE`: `ONE` on top of
    /// a hub, less with the distance.
    pub zone_weight: u64,
}

#[derive(Debug, Clone)]
pub struct City {
    pub intersections: Vec<Intersection>,
    pub roads: Vec<Road>,
    pub seed: u64,
    /// The grid coordinates of the hubs.
    pub hub_centers: Vec<(i32, i32)>,
}

#[derive(Debug)]
pub struct CityGenParams {
    pub grid_w: usize,
    pub grid_h: usize,
    /// The probability weight of a shortcut road, in parts of `CERTAIN`. The
    /// probability at an intersection also grows with its zone weight.
    pub extra_road_prob: u128,
    /// The number of hubs. With 0 there is one hub, at the middle of the grid.
    pub num_hubs: usize,
    /// The grid distance over which the influence of a hub falls by a factor of
    /// e, in parts of `ONE`: the larger, the further it reaches. It counts as at
    /// least `MIN_FALLOFF`.
    pub hub_falloff: u64,
    /// The probability that a road of a busy area is arterial rather than
    /// collector, in parts of `CERTAIN`.
    pub arterial_prob: u128,
    /// The range of intensities of each class, in parts of `ONE`.
    pub arterial_intensity: (i64, i64),
    pub collector_intensity: (i64, i64),
    pub local_intensity: (i64, i64),
    /// The probability that a grid edge in the outskirts (both directions of
    /// it) is left out, in parts of `CERTAIN`, where it is redundant. No
    /// intersection is pruned below degree 1 along an axis that it has edges on,
    /// and each edge left out has a way round it, so the network stays
    /// connected.
    pub prune_prob: u128,
}

/// An intersection as a mathematical value.
pub struct IntersectionModel {
    pub id: usize,
    pub x: i32,
    pub y: i32,
    pub incoming: Seq<usize>,
    pub outgoing: Seq<usize>,
    pub zone_weight: u64,
}

/// A city as a mathematical value.
pub struct CityModel {
    pub intersections: Seq<IntersectionModel>,
    pub roads: Seq<Road>,
    pub seed: u64,
    pub hub_centers: Seq<(i32, i32)>,
}

/// The generation parameters as a mathematical value.
pub struct ParamsModel {
    pub grid_w: usize,
    pub grid_h: usize,
    pub extra_road_prob: u128,
    pub num_hubs: usize,
    pub hub_falloff: u64,
    pub arterial_prob: u128,
    pub arterial_intensity: (i64, i64),
    pub collector_intensity: (i64, i64),
    pub local_intensity: (i64, i64),
    pub prune_prob: u128,
}

/// The part of an intersection that its roads do not change.
pub struct Site {
    pub x: i32,
    pub y: i32,
    pub zone_weight: u64,
}

impl View for Intersection {
    type V = IntersectionModel;

    open spec fn view(&self) -> IntersectionModel {
        IntersectionModel {
            id: self.id,
            x: self.x,
            y: self.y,
            incoming: self.incoming@,
            outgoing: self.outgoing@,
            zone_weight: self.zone_weight,
        }
    }
}

impl View for City {
    type V = CityModel;

    open spec fn view(&self) -> CityModel {
        CityModel {
            intersections: self.intersections@.map_values(|i: Intersection| i@),
            roads: self.roads@,
            seed: self.seed,
            hub_centers: self.hub_centers@,
        }
    }
}

impl View for CityGenParams {
    type V = ParamsModel;

    open spec fn view(&self) -> ParamsModel {
        ParamsModel {
            grid_w: self.grid_w,
            grid_h: self.grid_h,
            extra_road_prob: self.extra_road_prob,
            num_hubs: self.num_hubs,
            hub_falloff: self.hub_falloff,
            arterial_prob: self.arterial_prob,
            arterial_intensity: self.arterial_intensity,
            collector_intensity: self.collector_intensity,
            local_intensity: self.local_intensity,
            prune_prob: self.prune_prob,
        }
    }
}

impl CityModel {
    /// The sites of the intersections.
    pub open spec fn sites(self) -> Seq<Site> {
        self.intersections.map_values(
            |i: IntersectionModel| Site { x: i.x, y: i.y, zone_weight: i.zone_weight },
        )
    }

    /// The intersections and roads are numbered in order, each intersection
    /// lists the roads that start and end at it, and each road is sound.
    pub open spec fn wf(self) -> bool {
        &&& self.intersections.len() <= usize::MAX
        &&& self.roads.len() <= usize::MAX
        &&& forall|i: int|
            #![trigger self.intersections[i]]
            0 <= i < self.intersections.len() ==> {
                &&& self.intersections[i].id == i
                &&& self.intersections[i].zone_weight <= ONE
                &&& self.intersections[i].incoming == plan::incoming(self.roads, i)
                &&& self.intersections[i].outgoing == plan::outgoing(self.roads, i)
            }
        &&& forall|r: int|
            #![trigger self.roads[r]]
            0 <= r < self.roads.len() ==> plan::sound_road(self.roads[r], r, self.sites())
    }
}

impl ParamsModel {
    /// The grid fits the machine's integers, what is called a probability is
    /// one, and no intensity range is empty.
    pub open spec fn valid(self) -> bool {
        &&& self.grid_w <= i32::MAX
        &&& self.grid_h <= i32::MAX
        &&& self.grid_w * self.grid_h <= usize::MAX
        &&& self.extra_road_prob <= MAX_SCALE
        &&& self.arterial_prob <= CERTAIN
        &&& self.prune_prob <= CERTAIN
        &&& self.arterial_intensity.0 <= self.arterial_intensity.1
        &&& self.collector_intensity.0 <= self.collector_intensity.1
        &&& self.local_intensity.0 <= self.local_intensity.1
    }

    /// The range of intensities of a class.
    pub open spec fn intensity_range(self, class: RoadClass) -> (i64, i64) {
        match class {
            RoadClass::Arterial => self.arterial_intensity,
            RoadClass::Collector => self.collector_intensity,
            RoadClass::Local => self.local_intensity,
        }
    }
}

impl RoadClass {
    /// The smallest and the largest capacity of a road of this class.
    pub open spec fn capacities(self) -> (usize, usize) {
        match self {
            RoadClass::Arterial => (18, 27),
            RoadClass::Collector => (10, 17),
            RoadClass::Local => (5, 9),
        }
    }

    /// The smallest and the largest capacity of a road of this class.
    pub fn capacity_range(self) -> (range: (usize, usize))
        ensures
            range == self.capacities(),
    {
        match self {
            RoadClass::Arterial => (18, 27),
            RoadClass::Collector => (10, 17),
            RoadClass::Local => (5, 9),
        }
    }
}

impl Clone for CityGenParams {
    fn clone(&self) -> (copy: Self)
        ensures
            copy@ == self@,
    {
        CityGenParams {
            grid_w: self.grid_w,
            grid_h: self.grid_h,
            extra_road_prob: self.extra_road_prob,
            num_hubs: self.num_hubs,
            hub_falloff: self.hub_falloff,
            arterial_prob: self.arterial_prob,
            arterial_intensity: self.arterial_intensity,
            collector_intensity: self.collector_intensity,
            local_intensity: self.local_intensity,
            prune_prob: self.prune_prob,
        }
    }
}

impl Default for CityGenParams {
    fn default() -> (params: Self)
        ensures
            params@ == (ParamsModel {
                grid_w: 6,
                grid_h: 6,
                extra_road_prob: 0x147a_e147_ae14_7b00,
                num_hubs: 2,
                hub_falloff: 0x2_8000_0000,
                arterial_prob: 0x9999_9999_9999_9800,
                arterial_intensity: (0xb333_3300, 0x1_0000_0000),
                collector_intensity: (0x5999_9980, 0xa666_6600),
                local_intensity: (0xccc_ccd0, 0x4ccc_cd00),
                prune_prob: 0x2666_6666_6666_6600,
            }),
    {
        CityGenParams {
            grid_w: 6,
            grid_h: 6,
            // 0.08
            extra_road_prob: 0x147a_e147_ae14_7b00,
            num_hubs: 2,
            // 2.5
            hub_falloff: 0x2_8000_0000,
            // 0.6
            arterial_prob: 0x9999_9999_9999_9800,
            // 0.7 to 1, 0.35 to 0.65, 0.05 to 0.3
            arterial_intensity: (0xb333_3300, 0x1_0000_0000),
            collector_intensity: (0x5999_9980, 0xa666_6600),
            local_intensity: (0xccc_ccd0, 0x4ccc_cd00),
            // 0.15
            prune_prob: 0x2666_6666_6666_6600,
        }
    }
}

/// The influence of a hub at a distance, both in parts of `ONE`.
pub fn hub_influence(dist: u128, falloff: u64) -> (influence: u64)
    requires
        dist <= 0x4_0000_0000_0000_0000,
    ensures
        influence == plan::hub_influence(dist as nat, falloff),
        influence <= ONE,
{
    let reach: u64 = if falloff > MIN_FALLOFF {
        falloff
    } else {
        MIN_FALLOFF
    };
    decay_of(dist * (ONE as u128) / (reach as u128))
}

/// The square of the grid distance from `(x, y)` to a hub.
pub fn square_distance(x: i32, y: i32, hub: (i32, i32)) -> (square: u128)
    ensures
        square == plan::square_distance(x, y, hub),
        square <= 0x2_0000_0000_0000_0000,
{
    let dx: i128 = x as i128 - hub.0 as i128;
    let dy: i128 = y as i128 - hub.1 as i128;
    assert(0 <= dx * dx <= 0x1_0000_0000 * 0x1_0000_0000) by (nonlinear_arith)
        requires
            -0x1_0000_0000 <= dx <= 0x1_0000_0000,
    ;
    assert(0 <= dy * dy <= 0x1_0000_0000 * 0x1_0000_0000) by (nonlinear_arith)
        requires
            -0x1_0000_0000 <= dy <= 0x1_0000_0000,
    ;
    (dx * dx + dy * dy) as u128
}

/// The zone weight at `(x, y)`.
pub fn zone_weight_at(x: i32, y: i32, hubs: &Vec<(i32, i32)>, falloff: u64) -> (weight: u64)
    ensures
        weight == plan::zone_weight(falloff, hubs@, x, y),
        weight <= ONE,
{
    if hubs.len() == 0 {
        return ONE;
    }
    let mut best: u64 = 0;
    for k in 0..hubs.len()
        invariant
            best == plan::strongest(falloff, hubs@.take(k as int), x, y),
    {
        let influence: u64 = hub_influence(
            distance_of(square_distance(x, y, hubs[k])),
            falloff,
        );
        assert(hubs@.take(k + 1).drop_last() =~= hubs@.take(k as int));
        if influence > best {
            best = influence;
        }
    }
    assert(hubs@.take(hubs.len() as int) =~= hubs@);
    if best > ONE {
        ONE
    } else {
        best
    }
}

/// Gives each intersection its zone weight: the largest influence that one of
/// the hubs has on it. The largest, not the sum, keeps the weight at most `ONE`
/// however many hubs are close by.
pub fn compute_zone_weights(
    intersections: &mut Vec<Intersection>,
    hubs: &Vec<(i32, i32)>,
    falloff: u64,
)
    ensures
        final(intersections)@.len() == old(intersections)@.len(),
        forall|i: int|
            0 <= i < old(intersections)@.len() ==> (#[trigger] final(intersections)@[i])@ == (
            IntersectionModel {
                zone_weight: plan::zone_weight(
                    falloff,
                    hubs@,
                    old(intersections)@[i].x,
                    old(intersections)@[i].y,
                ),
                ..old(intersections)@[i]@
            }),
{
    let ghost before = intersections@;
    let count: usize = intersections.len();
    for k in 0..count
        invariant
            count == before.len(),
            intersections@.len() == before.len(),
            forall|i: int|
                0 <= i < k ==> (#[trigger] intersections@[i])@ == (IntersectionModel {
                    zone_weight: plan::zone_weight(falloff, hubs@, before[i].x, before[i].y),
                    ..before[i]@
                }),
            forall|i: int| k <= i < before.len() ==> intersections@[i] == before[i],
    {
        let weight: u64 = zone_weight_at(intersections[k].x, intersections[k].y, hubs, falloff);
        intersections[k].zone_weight = weight;
    }
}

/// The probability that a road between intersections of the given weights is
/// arterial, or `None` where the road is local.
pub fn arterial_chance(from_weight: u64, to_weight: u64, params: &CityGenParams) -> (chance: Option<
    u128,
>)
    requires
        from_weight <= ONE,
        to_weight <= ONE,
        params@.arterial_prob <= CERTAIN,
    ensures
        match chance {
            Some(p) => plan::arterial_chance(from_weight, to_weight, params@) == Some(p as int),
            None => plan::arterial_chance(from_weight, to_weight, params@) is None,
        },
{
    let both: bool = from_weight > HUB_WEIGHT && to_weight > HUB_WEIGHT;
    let either: bool = from_weight > HUB_WEIGHT || to_weight > HUB_WEIGHT;
    let total: u64 = from_weight + to_weight;
    if both {
        if params.arterial_prob > CORE_ARTERIAL_PROB {
            Some(params.arterial_prob)
        } else {
            Some(CORE_ARTERIAL_PROB)
        }
    } else if either || total > 2 * CENTRAL_WEIGHT {
        let prob: u128 = params.arterial_prob;
        assert(prob * total <= CERTAIN * (2 * ONE)) by (nonlinear_arith)
            requires
                prob <= CERTAIN,
                total <= 2 * ONE,
        ;
        Some(prob * (total as u128) / (2 * ONE as u128))
    } else {
        None
    }
}

/// Draws the class of a road between intersections of the given weights.
pub fn classify_road(
    from_weight: u64,
    to_weight: u64,
    rng: &mut StdRng,
    params: &CityGenParams,
) -> (class: RoadClass)
    requires
        from_weight <= ONE,
        to_weight <= ONE,
        params@.arterial_prob <= CERTAIN,
    ensures
        (class, random::upcoming(*final(rng))) == plan::drawn_class(
            random::upcoming(*old(rng)),
            from_weight,
            to_weight,
            params@,
        ),
{
    match arterial_chance(from_weight, to_weight, params) {
        Some(chance) => {
            if draw_chance(rng, chance) {
                RoadClass::Arterial
            } else {
                RoadClass::Collector
            }
        },
        None => RoadClass::Local,
    }
}

/// The intensity of a road in the range of its class.
pub fn blend_intensity(range: (i64, i64), from_weight: u64, to_weight: u64, word: u32) -> (
    intensity: u64)
    requires
        from_weight <= ONE,
        to_weight <= ONE,
        range.0 <= range.1,
    ensures
        intensity == plan::intensity(range, from_weight, to_weight, word),
        MIN_INTENSITY <= intensity <= ONE,
{
    let width: i128 = range.1 as i128 - range.0 as i128;
    let total: i128 = from_weight as i128 + to_weight as i128;
    let leading: i128 = (word / 512) as i128;
    assert(0 <= width * total <= 0x1_0000_0000_0000_0000 * 0x2_0000_0000) by (nonlinear_arith)
        requires
            0 <= width <= 0x1_0000_0000_0000_0000,
            0 <= total <= 0x2_0000_0000,
    ;
    let base: i128 = range.0 as i128 + width * total / (2 * ONE as i128);
    assert(0 <= width * JITTER_PART <= 0x1_0000_0000_0000_0000 * 0x1_0000_0000)
        by (nonlinear_arith)
        requires
            0 <= width <= 0x1_0000_0000_0000_0000,
            JITTER_PART <= 0x1_0000_0000,
    ;
    let span: i128 = width * (JITTER_PART as i128) / (ONE as i128);
    assert(0 <= 2 * span * leading <= 0x2_0000_0000_0000_0000 * 0x80_0000) by (nonlinear_arith)
        requires
            0 <= span <= 0x1_0000_0000_0000_0000,
            0 <= leading <= 0x80_0000,
    ;
    let jitter: i128 = 2 * span * leading / (MAX_FRACTION as i128) - span;
    if base + jitter < MIN_INTENSITY as i128 {
        MIN_INTENSITY
    } else if base + jitter > ONE as i128 {
        ONE
    } else {
        (base + jitter) as u64
    }
}

/// The length that a word gives a road.
pub fn length_from(word: u32) -> (length: u64)
    ensures
        length == plan::length(word),
        80 * ONE <= length < 220 * ONE,
{
    80 * ONE + 140 * ((word / 512) as u64 * 512)
}

/// The distance of two coordinates.
pub fn coordinate_gap(a: i32, b: i32) -> (gap: i64)
    ensures
        gap == plan::gap(a, b),
{
    if a >= b {
        a as i64 - b as i64
    } else {
        b as i64 - a as i64
    }
}

/// The site of an intersection.
pub open spec fn site_of(intersection: Intersection) -> Site {
    Site { x: intersection.x, y: intersection.y, zone_weight: intersection.zone_weight }
}

/// The sites of the intersections.
pub open spec fn sites_of(intersections: Seq<Intersection>) -> Seq<Site> {
    intersections.map_values(|i: Intersection| site_of(i))
}

/// The intersections are numbered in order, no weight is above `ONE`, and each
/// intersection lists the roads that start and end at it.
pub open spec fn linked(intersections: Seq<Intersection>, roads: Seq<Road>) -> bool {
    forall|i: int| #![trigger intersections[i]] 0 <= i < intersections.len() ==> {
        &&& intersections[i].id == i
        &&& intersections[i].zone_weight <= ONE
        &&& intersections[i].incoming@ == plan::incoming(roads, i)
        &&& intersections[i].outgoing@ == plan::outgoing(roads, i)
    }
}

/// The road that a class, a capacity and two words make between two
/// intersections.
pub fn make_road(
    id: usize,
    from: usize,
    to: usize,
    intersections: &Vec<Intersection>,
    params: &CityGenParams,
    class: RoadClass,
    jitter_word: u32,
    capacity: usize,
    length_word: u32,
) -> (road: Road)
    requires
        from < intersections@.len(),
        to < intersections@.len(),
        intersections@[from as int].zone_weight <= ONE,
        intersections@[to as int].zone_weight <= ONE,
        params@.valid(),
    ensures
        road == plan::road(
            id as int,
            from as int,
            to as int,
            sites_of(intersections@),
            params@,
            class,
            jitter_word,
            capacity as int,
            length_word,
        ),
        MIN_INTENSITY <= road.base_intensity <= ONE,
{
    let range: (i64, i64) = match class {
        RoadClass::Arterial => params.arterial_intensity,
        RoadClass::Collector => params.collector_intensity,
        RoadClass::Local => params.local_intensity,
    };
    let base_intensity: u64 = blend_intensity(
        range,
        intersections[from].zone_weight,
        intersections[to].zone_weight,
        jitter_word,
    );
    let dx: i64 = coordinate_gap(intersections[from].x, intersections[to].x);
    let dy: i64 = coordinate_gap(intersections[from].y, intersections[to].y);
    let phase_group: PhaseGroup = if dy >= dx {
        PhaseGroup::NorthSouth
    } else {
        PhaseGroup::EastWest
    };
    Road {
        id,
        from,
        to,
        length: length_from(length_word),
        capacity,
        class,
        base_intensity,
        phase_group,
    }
}

/// Lays one more road, from `from` to `to`.
pub fn add_road(
    roads: &mut Vec<Road>,
    intersections: &mut Vec<Intersection>,
    from: usize,
    to: usize,
    rng: &mut StdRng,
    params: &CityGenParams,
)
    requires
        from < old(intersections)@.len(),
        to < old(intersections)@.len(),
        linked(old(intersections)@, old(roads)@),
        params@.valid(),
    ensures
        (plan::Draft { roads: final(roads)@, words: random::upcoming(*final(rng)) })
            == plan::with_road(
            plan::Draft { roads: old(roads)@, words: random::upcoming(*old(rng)) },
            sites_of(old(intersections)@),
            params@,
            from as int,
            to as int,
        ),
        sites_of(final(intersections)@) == sites_of(old(intersections)@),
        linked(final(intersections)@, final(roads)@),
{
    let from_weight: u64 = intersections[from].zone_weight;
    let to_weight: u64 = intersections[to].zone_weight;
    let class: RoadClass = classify_road(from_weight, to_weight, rng, params);
    let jitter_word: u32 = next_word(rng);
    let (low, high): (usize, usize) = class.capacity_range();
    let capacity: usize = draw_between(rng, low, high);
    let length_word: u32 = next_word(rng);
    let id: usize = roads.len();
    let ghost before = roads@;
    let ghost nodes = intersections@;
    let road: Road = make_road(
        id,
        from,
        to,
        intersections,
        params,
        class,
        jitter_word,
        capacity,
        length_word,
    );
    roads.push(road);
    intersections[from].outgoing.push(id);
    intersections[to].incoming.push(id);
    proof {
        reveal(plan::with_road);
        assert(roads@.drop_last() =~= before);
        assert(sites_of(intersections@) =~= sites_of(nodes));
    }
}

/// The intersections of a grid, row by row, without weights and roads.
pub fn grid_points(w: usize, h: usize) -> (points: Vec<Intersection>)
    requires
        w <= i32::MAX,
        h <= i32::MAX,
        w * h <= usize::MAX,
    ensures
        points@.len() == w * h,
        forall|k: int|
            0 <= k < w * h ==> (#[trigger] points@[k])@ == (IntersectionModel {
                id: k as usize,
                x: (k % w as int) as i32,
                y: (k / w as int) as i32,
                incoming: Seq::empty(),
                outgoing: Seq::empty(),
                zone_weight: 0,
            }),
{
    let mut points: Vec<Intersection> = Vec::new();
    assert(0 * w == 0) by (nonlinear_arith);
    for y in 0..h
        invariant
            w <= i32::MAX,
            h <= i32::MAX,
            w * h <= usize::MAX,
            points@.len() == y * w,
            forall|k: int|
                0 <= k < points@.len() ==> (#[trigger] points@[k])@ == (IntersectionModel {
                    id: k as usize,
                    x: (k % w as int) as i32,
                    y: (k / w as int) as i32,
                    incoming: Seq::empty(),
                    outgoing: Seq::empty(),
                    zone_weight: 0,
                }),
    {
        proof {
            lemma_row_fits(w as int, h as int, y as int);
        }
        for x in 0..w
            invariant
                w <= i32::MAX,
                h <= i32::MAX,
                y < h,
                y * w + w <= usize::MAX,
                points@.len() == y * w + x,
                forall|k: int|
                    0 <= k < points@.len() ==> (#[trigger] points@[k])@ == (IntersectionModel {
                        id: k as usize,
                        x: (k % w as int) as i32,
                        y: (k / w as int) as i32,
                        incoming: Seq::empty(),
                        outgoing: Seq::empty(),
                        zone_weight: 0,
                    }),
        {
            proof {
                lemma_place(w as int, x as int, y as int);
            }
            let id: usize = y * w + x;
            points.push(
                Intersection {
                    id,
                    x: x as i32,
                    y: y as i32,
                    incoming: Vec::new(),
                    outgoing: Vec::new(),
                    zone_weight: 0,
                },
            );
        }
        assert((y + 1) * w == y * w + w) by (nonlinear_arith);
    }
    assert(h * w == w * h) by (nonlinear_arith);
    points
}

/// A row of the grid ends inside the grid.
pub proof fn lemma_row_fits(w: int, h: int, y: int)
    requires
        0 <= y < h,
        0 <= w,
    ensures
        0 <= y * w,
        y * w + w <= w * h,
        y + 1 < h ==> y * w + 2 * w <= w * h,
        0 < y ==> w <= y * w,
{
    assert(0 <= y * w) by (nonlinear_arith)
        requires
            0 <= y,
            0 <= w,
    ;
    assert(y * w + w <= w * h) by (nonlinear_arith)
        requires
            y + 1 <= h,
            0 <= w,
    ;
    if 0 < y {
        assert(w <= y * w) by (nonlinear_arith)
            requires
                1 <= y,
                0 <= w,
        ;
    }
    if y + 1 < h {
        assert(y * w + 2 * w <= w * h) by (nonlinear_arith)
            requires
                y + 2 <= h,
                0 <= w,
        ;
    }
}

/// The number of an intersection gives back its column and row.
pub proof fn lemma_place(w: int, x: int, y: int)
    requires
        0 <= x < w,
        0 <= y,
    ensures
        (y * w + x) % w == x,
        (y * w + x) / w == y,
{
    assert(y * w == w * y) by (nonlinear_arith);
    vstd::arithmetic::div_mod::lemma_fundamental_div_mod_converse(y * w + x, w, y, x);
}

/// Draws the hubs of a city.
pub fn place_hubs(rng: &mut StdRng, params: &CityGenParams) -> (hubs: Vec<(i32, i32)>)
    requires
        params@.valid(),
    ensures
        (hubs@, random::upcoming(*final(rng))) == plan::hubs(
            random::upcoming(*old(rng)),
            params@,
        ),
{
    let w: usize = params.grid_w;
    let h: usize = params.grid_h;
    let mut hubs: Vec<(i32, i32)> = Vec::new();
    if params.num_hubs == 0 {
        hubs.push(((w / 2) as i32, (h / 2) as i32));
        assert(hubs@ =~= seq![((w / 2) as i32, (h / 2) as i32)]);
        return hubs;
    }
    let last_x: usize = if w == 0 {
        0
    } else {
        w - 1
    };
    let last_y: usize = if h == 0 {
        0
    } else {
        h - 1
    };
    let ghost start = random::upcoming(*rng);
    for k in 0..params.num_hubs
        invariant
            params@.valid(),
            last_x == (if params.grid_w == 0 {
                0
            } else {
                params.grid_w - 1
            }),
            last_y == (if params.grid_h == 0 {
                0
            } else {
                params.grid_h - 1
            }),
            (hubs@, random::upcoming(*rng)) == plan::drawn_hubs(start, params@, k as nat),
    {
        let x: usize = draw_between(rng, 0, last_x);
        let y: usize = draw_between(rng, 0, last_y);
        hubs.push((x as i32, y as i32));
    }
    hubs
}

/// Lays the grid edge between `a` and `b`, a road each way, unless it is left
/// out: in the outskirts a draw may leave out an edge that is `spare`.
pub fn add_edge(
    roads: &mut Vec<Road>,
    intersections: &mut Vec<Intersection>,
    a: usize,
    b: usize,
    spare: bool,
    rng: &mut StdRng,
    params: &CityGenParams,
)
    requires
        a < old(intersections)@.len(),
        b < old(intersections)@.len(),
        linked(old(intersections)@, old(roads)@),
        params@.valid(),
    ensures
        (plan::Draft { roads: final(roads)@, words: random::upcoming(*final(rng)) })
            == plan::with_edge(
            plan::Draft { roads: old(roads)@, words: random::upcoming(*old(rng)) },
            sites_of(old(intersections)@),
            params@,
            a as int,
            b as int,
            spare,
        ),
        sites_of(final(intersections)@) == sites_of(old(intersections)@),
        linked(final(intersections)@, final(roads)@),
{
    proof {
        reveal(plan::with_edge);
    }
    let total: u64 = intersections[a].zone_weight + intersections[b].zone_weight;
    let skip: bool = total < 2 * OUTSKIRTS_WEIGHT && draw_chance(rng, params.prune_prob) && spare;
    if !skip {
        assert(sites_of(intersections@).len() == intersections@.len());
        add_road(roads, intersections, a, b, rng, params);
        assert(sites_of(intersections@).len() == intersections@.len());
        add_road(roads, intersections, b, a, rng, params);
    }
}

/// Whether a road leads from `a` to `b`.
pub fn has_road(roads: &Vec<Road>, intersections: &Vec<Intersection>, a: usize, b: usize) -> (
    found: bool)
    requires
        a < intersections@.len(),
        linked(intersections@, roads@),
    ensures
        found == plan::has_road(roads@, a as int, b as int),
{
    let ghost list = plan::outgoing(roads@, a as int);
    proof {
        assert(roads.len() <= usize::MAX);
        city_laws::lemma_outgoing(roads@, a as int);
    }
    let count: usize = intersections[a].outgoing.len();
    for k in 0..count
        invariant
            a < intersections@.len(),
            count == list.len(),
            list == intersections@[a as int].outgoing@,
            forall|i: int|
                0 <= i < list.len() ==> (#[trigger] list[i]) < roads@.len()
                    && roads@[list[i] as int].from == a,
            forall|i: int| 0 <= i < k ==> roads@[(#[trigger] list[i]) as int].to != b,
    {
        let r: usize = intersections[a].outgoing[k];
        assert(list[k as int] == r);
        if roads[r].to == b {
            return true;
        }
    }
    assert(!plan::has_road(roads@, a as int, b as int)) by {
        if plan::has_road(roads@, a as int, b as int) {
            let r = choose|r: int|
                0 <= r < roads@.len() && (#[trigger] roads@[r]).from == a && roads@[r].to == b;
            assert(list.contains(r as usize));
            let i = choose|i: int| 0 <= i < list.len() && list[i] == r as usize;
            assert(roads@[list[i] as int].to != b);
        }
    }
    false
}

/// Whether the edge to the right of column `x` of row `y` is redundant, given
/// the roads laid so far.
pub fn spare_right(
    roads: &Vec<Road>,
    intersections: &Vec<Intersection>,
    x: usize,
    y: usize,
    params: &CityGenParams,
) -> (spare: bool)
    requires
        x + 1 < params.grid_w,
        y < params.grid_h,
        intersections@.len() == params.grid_w * params.grid_h,
        linked(intersections@, roads@),
    ensures
        spare == plan::spare_right(roads@, params@, x as int, y as int),
{
    let w: usize = params.grid_w;
    proof {
        lemma_row_fits(w as int, params.grid_h as int, y as int);
        assert(intersections.len() <= usize::MAX);
    }
    let id: usize = y * w + x;
    0 < x && x + 2 < w && 0 < y && has_road(roads, intersections, id, id - 1) && has_road(
        roads,
        intersections,
        id + 1 - w,
        id - w,
    ) && has_road(roads, intersections, id, id - w) && has_road(
        roads,
        intersections,
        id + 1,
        id + 1 - w,
    )
}

/// Whether the edge down from column `x` of row `y` is redundant, given the
/// roads laid so far.
pub fn spare_down(
    roads: &Vec<Road>,
    intersections: &Vec<Intersection>,
    x: usize,
    y: usize,
    params: &CityGenParams,
) -> (spare: bool)
    requires
        x < params.grid_w,
        y + 1 < params.grid_h,
        intersections@.len() == params.grid_w * params.grid_h,
        linked(intersections@, roads@),
    ensures
        spare == plan::spare_down(roads@, params@, x as int, y as int),
{
    let w: usize = params.grid_w;
    proof {
        lemma_row_fits(w as int, params.grid_h as int, y as int);
        assert(intersections.len() <= usize::MAX);
    }
    let id: usize = y * w + x;
    0 < y && y + 2 < params.grid_h && 0 < x && has_road(roads, intersections, id, id - w)
        && has_road(roads, intersections, id, id - 1) && has_road(
        roads,
        intersections,
        id - 1 + w,
        id - 1,
    )
}

/// Lays the edges from the intersection at column `x` of row `y` to its right
/// and lower neighbours. Only a redundant edge is spare.
pub fn add_cell(
    roads: &mut Vec<Road>,
    intersections: &mut Vec<Intersection>,
    x: usize,
    y: usize,
    rng: &mut StdRng,
    params: &CityGenParams,
)
    requires
        x < params.grid_w,
        y < params.grid_h,
        old(intersections)@.len() == params.grid_w * params.grid_h,
        linked(old(intersections)@, old(roads)@),
        params@.valid(),
    ensures
        (plan::Draft { roads: final(roads)@, words: random::upcoming(*final(rng)) })
            == plan::with_cell(
            plan::Draft { roads: old(roads)@, words: random::upcoming(*old(rng)) },
            sites_of(old(intersections)@),
            params@,
            x as int,
            y as int,
        ),
        sites_of(final(intersections)@) == sites_of(old(intersections)@),
        linked(final(intersections)@, final(roads)@),
{
    let w: usize = params.grid_w;
    let h: usize = params.grid_h;
    proof {
        reveal(plan::with_cell);
        lemma_row_fits(w as int, h as int, y as int);
    }
    let id: usize = y * w + x;
    assert(sites_of(intersections@).len() == intersections@.len());
    if x + 1 < w {
        let spare: bool = spare_right(roads, intersections, x, y, params);
        add_edge(roads, intersections, id, id + 1, spare, rng, params);
        assert(sites_of(intersections@).len() == intersections@.len());
    }
    if y + 1 < h {
        let spare: bool = spare_down(roads, intersections, x, y, params);
        add_edge(roads, intersections, id, id + w, spare, rng, params);
    }
}

/// The probability of a shortcut from an intersection of weight `weight` to
/// another given one, in a city of `size` intersections.
pub fn shortcut_chance(weight: u64, size: usize, params: &CityGenParams) -> (chance: u128)
    requires
        weight <= ONE,
        size > 0,
        size == plan::size(params@),
        params@.valid(),
    ensures
        chance == plan::shortcut_chance(weight, params@),
{
    assert(SHORTCUT_GAIN * weight <= SHORTCUT_GAIN * ONE) by (nonlinear_arith)
        requires
            weight <= ONE,
    ;
    let scale: u128 = SHORTCUT_BASE as u128 + (SHORTCUT_GAIN as u128) * (weight as u128) / (
    ONE as u128);
    let prob: u128 = params.extra_road_prob;
    assert(0 <= prob * scale <= 0x400_0000_0000_0000_0000_0000 * 0x4_0000_0000)
        by (nonlinear_arith)
        requires
            0 <= prob <= 0x400_0000_0000_0000_0000_0000,
            0 <= scale <= 0x4_0000_0000,
    ;
    prob * scale / ((ONE as u128) * (size as u128))
}

/// Generates the city of a seed. The same seed and parameters give the same
/// city.
pub fn generate_city(seed: u64, params: &CityGenParams) -> (city: City)
    requires
        params@.valid(),
    ensures
        city@ == plan::city(seed, params@),
        city@.wf(),
{
    let mut rng: StdRng = seed_rng(seed);
    let w: usize = params.grid_w;
    let h: usize = params.grid_h;
    let mut intersections: Vec<Intersection> = grid_points(w, h);
    let hub_centers: Vec<(i32, i32)> = place_hubs(&mut rng, params);
    compute_zone_weights(&mut intersections, &hub_centers, params.hub_falloff);
    let mut roads: Vec<Road> = Vec::new();
    let ghost sites = plan::sites(params@, hub_centers@);
    let ghost start = plan::Draft { roads: Seq::empty(), words: random::upcoming(rng) };
    assert(sites_of(intersections@) =~= sites);
    assert(roads@ =~= start.roads);

    for y in 0..h
        invariant
            w == params.grid_w,
            h == params.grid_h,
            params@.valid(),
            sites_of(intersections@) == sites,
            sites.len() == w * h,
            linked(intersections@, roads@),
            (plan::Draft { roads: roads@, words: random::upcoming(rng) }) == plan::with_rows(
                start,
                sites,
                params@,
                y as int,
            ),
    {
        let ghost row = plan::Draft { roads: roads@, words: random::upcoming(rng) };
        for x in 0..w
            invariant
                w == params.grid_w,
                h == params.grid_h,
                params@.valid(),
                y < h,
                sites_of(intersections@) == sites,
                sites.len() == w * h,
                linked(intersections@, roads@),
                (plan::Draft { roads: roads@, words: random::upcoming(rng) }) == plan::with_row(
                    row,
                    sites,
                    params@,
                    x as int,
                    y as int,
                ),
        {
            assert(sites_of(intersections@).len() == intersections@.len());
            add_cell(&mut roads, &mut intersections, x, y, &mut rng, params);
        }
    }

    let n: usize = w * h;
    let ghost laid = plan::Draft { roads: roads@, words: random::upcoming(rng) };
    if n > 1 {
        for a in 0..n
            invariant
                n == plan::size(params@),
                n > 1,
                params@.valid(),
                sites_of(intersections@) == sites,
                sites.len() == n,
                linked(intersections@, roads@),
                (plan::Draft { roads: roads@, words: random::upcoming(rng) })
                    == plan::with_shortcuts(laid, sites, params@, a as int),
        {
            assert(sites_of(intersections@).len() == intersections@.len());
            let chance: u128 = shortcut_chance(intersections[a].zone_weight, n, params);
            let ghost row = plan::Draft { roads: roads@, words: random::upcoming(rng) };
            assert(sites[a as int].zone_weight == intersections@[a as int].zone_weight);
            for b in 0..n
                invariant
                    n == plan::size(params@),
                    a < n,
                    params@.valid(),
                    chance == plan::shortcut_chance(sites[a as int].zone_weight, params@),
                    sites_of(intersections@) == sites,
                    sites.len() == n,
                    linked(intersections@, roads@),
                    (plan::Draft { roads: roads@, words: random::upcoming(rng) })
                        == plan::with_shortcuts_from(row, sites, params@, a as int, b as int),
            {
                if a != b {
                    if draw_chance(&mut rng, chance) {
                        assert(sites_of(intersections@).len() == intersections@.len());
                        add_road(&mut roads, &mut intersections, a, b, &mut rng, params);
                    }
                }
            }
        }
    }
    let city: City = City { intersections, roads, seed, hub_centers };
    proof {
        let model = plan::city(seed, params@);
        assert(city@.intersections.len() == model.intersections.len());
        assert forall|i: int| 0 <= i < model.intersections.len() implies city@.intersections[i]
            == model.intersections[i] by {
            assert(sites_of(city.intersections@)[i] == site_of(city.intersections@[i]));
        }
        assert(city@.intersections =~= model.intersections);
        city_laws::law_city_is_well_formed(city, seed, params@);
    }
    city
}

} // verus!
