//! The city that a seed and a set of parameters stand for.
//!
//! Each function says what a step of the generation yields, given the words
//! that the generator puts out; `city` is the whole.

use vstd::prelude::*;

use crate::city::{
    CityModel, IntersectionModel, ParamsModel, PhaseGroup, Road, RoadClass, Site,
    CENTRAL_WEIGHT, CORE_ARTERIAL_PROB, HUB_WEIGHT, JITTER_PART, MAX_FRACTION, MIN_FALLOFF,
    MIN_INTENSITY, OUTSKIRTS_WEIGHT, SHORTCUT_BASE, SHORTCUT_GAIN,
};
use crate::decay;
use crate::fixed::ONE;
use crate::random;

verus! {

/// The roads laid so far, and the words that are left.
pub struct Draft {
    pub roads: Seq<Road>,
    pub words: Map<nat, u32>,
}

/// The first `count` hubs, each drawn by its column and then by its row.
pub open spec fn drawn_hubs(
    words: Map<nat, u32>,
    params: ParamsModel,
    count: nat,
) -> (Seq<(i32, i32)>, Map<nat, u32>)
    decreases count,
{
    if count == 0 {
        (Seq::empty(), words)
    } else {
        let (hubs, rest) = drawn_hubs(words, params, (count - 1) as nat);
        let (hub, rest) = drawn_hub(rest, params);
        (hubs.push(hub), rest)
    }
}

/// One hub, drawn from a grid that counts as at least one by one.
pub open spec fn drawn_hub(words: Map<nat, u32>, params: ParamsModel) -> (
    (i32, i32),
    Map<nat, u32>,
) {
    let last_x = if params.grid_w == 0 { 0 } else { params.grid_w - 1 };
    let last_y = if params.grid_h == 0 { 0 } else { params.grid_h - 1 };
    let x = random::between(words, 0, last_x);
    let rest = random::after_between(words, 0, last_x);
    let y = random::between(rest, 0, last_y);
    ((x as i32, y as i32), random::after_between(rest, 0, last_y))
}

/// The hubs of a city, and the words left once they are drawn.
pub open spec fn hubs(words: Map<nat, u32>, params: ParamsModel) -> (
    Seq<(i32, i32)>,
    Map<nat, u32>,
) {
    if params.num_hubs == 0 {
        (seq![((params.grid_w / 2) as i32, (params.grid_h / 2) as i32)], words)
    } else {
        drawn_hubs(words, params, params.num_hubs as nat)
    }
}

/// The square of the grid distance from `(x, y)` to a hub.
pub open spec fn square_distance(x: i32, y: i32, hub: (i32, i32)) -> int {
    (x - hub.0) * (x - hub.0) + (y - hub.1) * (y - hub.1)
}

/// The influence of a hub at a distance, both in parts of `ONE`: e^(-dist /
/// falloff). A falloff counts as at least `MIN_FALLOFF`.
pub open spec fn hub_influence(dist: nat, falloff: u64) -> nat {
    let reach = if falloff > MIN_FALLOFF {
        falloff as nat
    } else {
        MIN_FALLOFF as nat
    };
    decay::decay(dist * ONE as nat / reach)
}

/// The influence of a hub at a given square distance.
pub open spec fn influence(falloff: u64, square_distance: int) -> u64 {
    hub_influence(decay::distance(square_distance as nat), falloff) as u64
}

/// The largest influence that one of the hubs has at `(x, y)`.
pub open spec fn strongest(falloff: u64, hubs: Seq<(i32, i32)>, x: i32, y: i32) -> u64
    decreases hubs.len(),
{
    if hubs.len() == 0 {
        0
    } else {
        let rest = strongest(falloff, hubs.drop_last(), x, y);
        let last = influence(falloff, square_distance(x, y, hubs.last()));
        if last > rest {
            last
        } else {
            rest
        }
    }
}

/// The zone weight at `(x, y)`: the largest influence, but at most `ONE`. With
/// no hub at all every place has weight `ONE`.
pub open spec fn zone_weight(falloff: u64, hubs: Seq<(i32, i32)>, x: i32, y: i32) -> u64 {
    if hubs.len() == 0 {
        ONE
    } else if strongest(falloff, hubs, x, y) > ONE {
        ONE
    } else {
        strongest(falloff, hubs, x, y)
    }
}

/// The number of intersections.
pub open spec fn size(params: ParamsModel) -> int {
    params.grid_w * params.grid_h
}

/// The intersection at column `x` of row `y`.
pub open spec fn site(params: ParamsModel, hubs: Seq<(i32, i32)>, x: int, y: int) -> Site {
    Site {
        x: x as i32,
        y: y as i32,
        zone_weight: zone_weight(params.hub_falloff, hubs, x as i32, y as i32),
    }
}

/// The intersections of the grid, row by row.
pub open spec fn sites(params: ParamsModel, hubs: Seq<(i32, i32)>) -> Seq<Site> {
    Seq::new(
        size(params) as nat,
        |k: int| site(params, hubs, k % params.grid_w as int, k / params.grid_w as int),
    )
}

/// The probability that a road is arterial, or `None` for a local road, which
/// no draw can change. Between two intersections close to a hub it is at least
/// `CORE_ARTERIAL_PROB`; where one end is, or the road is central, it is
/// `arterial_prob` times the mean weight.
pub open spec fn arterial_chance(
    from_weight: u64,
    to_weight: u64,
    params: ParamsModel,
) -> Option<int> {
    if from_weight > HUB_WEIGHT && to_weight > HUB_WEIGHT {
        Some(
            if params.arterial_prob > CORE_ARTERIAL_PROB {
                params.arterial_prob as int
            } else {
                CORE_ARTERIAL_PROB as int
            },
        )
    } else if from_weight > HUB_WEIGHT || to_weight > HUB_WEIGHT || from_weight + to_weight > 2
        * CENTRAL_WEIGHT {
        Some(params.arterial_prob * (from_weight + to_weight) / (2 * ONE as int))
    } else {
        None
    }
}

/// The class that the words give a road, and the words left.
pub open spec fn drawn_class(
    words: Map<nat, u32>,
    from_weight: u64,
    to_weight: u64,
    params: ParamsModel,
) -> (RoadClass, Map<nat, u32>) {
    match arterial_chance(from_weight, to_weight, params) {
        Some(chance) => (
            if random::hits(words, chance) {
                RoadClass::Arterial
            } else {
                RoadClass::Collector
            },
            random::after_chance(words, chance),
        ),
        None => (RoadClass::Local, words),
    }
}

/// The 23 leading bits of a word.
pub open spec fn fraction(word: u32) -> int {
    word as int / 512
}

/// The intensity of a road: its place in the range from `lo` to `hi` by the
/// mean weight of its ends, moved by a jitter that the word `word` picks from
/// `JITTER_PART` of the range on either side, and kept between `MIN_INTENSITY`
/// and `ONE`.
pub open spec fn intensity(
    range: (i64, i64),
    from_weight: u64,
    to_weight: u64,
    word: u32,
) -> int {
    let width = range.1 - range.0;
    let base = range.0 + width * (from_weight + to_weight) / (2 * ONE as int);
    let span = width * JITTER_PART / ONE as int;
    let jitter = 2 * span * fraction(word) / MAX_FRACTION as int - span;
    if base + jitter < MIN_INTENSITY {
        MIN_INTENSITY as int
    } else if base + jitter > ONE {
        ONE as int
    } else {
        base + jitter
    }
}

/// The length that a word gives a road: from 80 up to, but not including, 220.
pub open spec fn length(word: u32) -> int {
    80 * ONE + 140 * (fraction(word) * 512)
}

/// The distance of two coordinates.
pub open spec fn gap(a: i32, b: i32) -> int {
    if a >= b {
        a - b
    } else {
        b - a
    }
}

/// The phase group of a road by its dominant axis.
pub open spec fn phase_group(from: Site, to: Site) -> PhaseGroup {
    if gap(from.y, to.y) >= gap(from.x, to.x) {
        PhaseGroup::NorthSouth
    } else {
        PhaseGroup::EastWest
    }
}

/// The road from `from` to `to` that a class, a capacity and two words make.
pub open spec fn road(
    id: int,
    from: int,
    to: int,
    sites: Seq<Site>,
    params: ParamsModel,
    class: RoadClass,
    jitter_word: u32,
    capacity: int,
    length_word: u32,
) -> Road {
    Road {
        id: id as usize,
        from: from as usize,
        to: to as usize,
        length: length(length_word) as u64,
        capacity: capacity as usize,
        class,
        base_intensity: intensity(
            params.intensity_range(class),
            sites[from].zone_weight,
            sites[to].zone_weight,
            jitter_word,
        ) as u64,
        phase_group: phase_group(sites[from], sites[to]),
    }
}

/// One more road, from `from` to `to`. The draws are, in this order, its class,
/// its jitter, its capacity and its length.
#[verifier::opaque]
pub open spec fn with_road(
    draft: Draft,
    sites: Seq<Site>,
    params: ParamsModel,
    from: int,
    to: int,
) -> Draft {
    let (class, words) = drawn_class(
        draft.words,
        sites[from].zone_weight,
        sites[to].zone_weight,
        params,
    );
    let jitter_word = words[0];
    let words = random::skip(words, 1);
    let low = class.capacities().0 as int;
    let high = class.capacities().1 as int;
    let capacity = random::between(words, low, high);
    let words = random::after_between(words, low, high);
    let length_word = words[0];
    Draft {
        roads: draft.roads.push(
            road(
                draft.roads.len() as int,
                from,
                to,
                sites,
                params,
                class,
                jitter_word,
                capacity,
                length_word,
            ),
        ),
        words: random::skip(words, 1),
    }
}

/// Whether the grid edge between `a` and `b` lies in the outskirts.
pub open spec fn in_outskirts(sites: Seq<Site>, a: int, b: int) -> bool {
    sites[a].zone_weight + sites[b].zone_weight < 2 * OUTSKIRTS_WEIGHT
}

/// The grid edge between `a` and `b`, as a road each way. In the outskirts a
/// draw may leave it out, if it is `spare`.
#[verifier::opaque]
pub open spec fn with_edge(
    draft: Draft,
    sites: Seq<Site>,
    params: ParamsModel,
    a: int,
    b: int,
    spare: bool,
) -> Draft {
    if in_outskirts(sites, a, b) {
        let drawn = Draft {
            roads: draft.roads,
            words: random::after_chance(draft.words, params.prune_prob as int),
        };
        if random::hits(draft.words, params.prune_prob as int) && spare {
            drawn
        } else {
            with_road(with_road(drawn, sites, params, a, b), sites, params, b, a)
        }
    } else {
        with_road(with_road(draft, sites, params, a, b), sites, params, b, a)
    }
}

/// Whether a road leads from `a` to `b`.
pub open spec fn has_road(roads: Seq<Road>, a: int, b: int) -> bool {
    exists|k: int| 0 <= k < roads.len() && (#[trigger] roads[k]).from == a && roads[k].to == b
}

/// Whether the edge to the right of column `x` of row `y` is redundant, given
/// the roads laid so far. Each of its ends keeps another edge of the row: the
/// edge before it is laid, and there is one after it, which is then not
/// redundant. And there is a way round it: the edge above it and the two edges
/// between these are laid.
pub open spec fn spare_right(roads: Seq<Road>, params: ParamsModel, x: int, y: int) -> bool {
    let w = params.grid_w as int;
    let id = y * w + x;
    &&& 0 < x && x + 2 < w && 0 < y
    &&& has_road(roads, id, id - 1)
    &&& has_road(roads, id + 1 - w, id - w)
    &&& has_road(roads, id, id - w)
    &&& has_road(roads, id + 1, id + 1 - w)
}

/// Whether the edge down from column `x` of row `y` is redundant, given the
/// roads laid so far. Each of its ends keeps another edge of the column: the
/// edge before it is laid, and there is one after it, which is then not
/// redundant. And there is a way round it: the edge to its left and the edge
/// between their upper ends are laid, and without it the edge between their
/// lower ends is not redundant.
pub open spec fn spare_down(roads: Seq<Road>, params: ParamsModel, x: int, y: int) -> bool {
    let w = params.grid_w as int;
    let id = y * w + x;
    &&& 0 < y && y + 2 < params.grid_h && 0 < x
    &&& has_road(roads, id, id - w)
    &&& has_road(roads, id, id - 1)
    &&& has_road(roads, id - 1 + w, id - 1)
}

/// The edges from the intersection at column `x` of row `y` to its right and
/// lower neighbours. Only a redundant edge is spare.
#[verifier::opaque]
pub open spec fn with_cell(
    draft: Draft,
    sites: Seq<Site>,
    params: ParamsModel,
    x: int,
    y: int,
) -> Draft {
    let w = params.grid_w as int;
    let h = params.grid_h as int;
    let id = y * w + x;
    let right = if x + 1 < w {
        with_edge(draft, sites, params, id, id + 1, spare_right(draft.roads, params, x, y))
    } else {
        draft
    };
    if y + 1 < h {
        with_edge(right, sites, params, id, id + w, spare_down(right.roads, params, x, y))
    } else {
        right
    }
}

/// The edges of the first `x` intersections of row `y`.
pub open spec fn with_row(
    draft: Draft,
    sites: Seq<Site>,
    params: ParamsModel,
    x: int,
    y: int,
) -> Draft
    decreases x,
{
    if x <= 0 {
        draft
    } else {
        with_cell(with_row(draft, sites, params, x - 1, y), sites, params, x - 1, y)
    }
}

/// The edges of the first `y` rows.
pub open spec fn with_rows(draft: Draft, sites: Seq<Site>, params: ParamsModel, y: int) -> Draft
    decreases y,
{
    if y <= 0 {
        draft
    } else {
        with_row(
            with_rows(draft, sites, params, y - 1),
            sites,
            params,
            params.grid_w as int,
            y - 1,
        )
    }
}

/// The probability of a shortcut from an intersection of weight `weight` to
/// another given one.
pub open spec fn shortcut_chance(weight: u64, params: ParamsModel) -> int {
    let scale = SHORTCUT_BASE + SHORTCUT_GAIN * weight / ONE as int;
    params.extra_road_prob * scale / (ONE * size(params))
}

/// The shortcut from `a` to `b`, where a draw asks for it.
pub open spec fn with_shortcut(
    draft: Draft,
    sites: Seq<Site>,
    params: ParamsModel,
    a: int,
    b: int,
) -> Draft {
    if a == b {
        draft
    } else {
        let chance = shortcut_chance(sites[a].zone_weight, params);
        let drawn = Draft {
            roads: draft.roads,
            words: random::after_chance(draft.words, chance),
        };
        if random::hits(draft.words, chance) {
            with_road(drawn, sites, params, a, b)
        } else {
            drawn
        }
    }
}

/// The shortcuts from `a` to the first `b` intersections.
pub open spec fn with_shortcuts_from(
    draft: Draft,
    sites: Seq<Site>,
    params: ParamsModel,
    a: int,
    b: int,
) -> Draft
    decreases b,
{
    if b <= 0 {
        draft
    } else {
        with_shortcut(
            with_shortcuts_from(draft, sites, params, a, b - 1),
            sites,
            params,
            a,
            b - 1,
        )
    }
}

/// The shortcuts from the first `a` intersections.
pub open spec fn with_shortcuts(
    draft: Draft,
    sites: Seq<Site>,
    params: ParamsModel,
    a: int,
) -> Draft
    decreases a,
{
    if a <= 0 {
        draft
    } else {
        with_shortcuts_from(
            with_shortcuts(draft, sites, params, a - 1),
            sites,
            params,
            a - 1,
            size(params),
        )
    }
}

/// The grid roads of a city, without its shortcuts.
pub open spec fn grid(params: ParamsModel, hubs: Seq<(i32, i32)>, words: Map<nat, u32>) -> Draft {
    with_rows(
        Draft { roads: Seq::empty(), words },
        sites(params, hubs),
        params,
        params.grid_h as int,
    )
}

/// All roads of a city. A single intersection has no shortcut.
pub open spec fn roads(params: ParamsModel, hubs: Seq<(i32, i32)>, words: Map<nat, u32>) -> Draft {
    let laid = grid(params, hubs, words);
    if size(params) > 1 {
        with_shortcuts(laid, sites(params, hubs), params, size(params))
    } else {
        laid
    }
}

/// The roads that start at `node`, in the order in which they were laid.
pub open spec fn outgoing(roads: Seq<Road>, node: int) -> Seq<usize>
    decreases roads.len(),
{
    if roads.len() == 0 {
        Seq::empty()
    } else {
        let rest = outgoing(roads.drop_last(), node);
        if roads.last().from == node {
            rest.push((roads.len() - 1) as usize)
        } else {
            rest
        }
    }
}

/// The roads that end at `node`, in the order in which they were laid.
pub open spec fn incoming(roads: Seq<Road>, node: int) -> Seq<usize>
    decreases roads.len(),
{
    if roads.len() == 0 {
        Seq::empty()
    } else {
        let rest = incoming(roads.drop_last(), node);
        if roads.last().to == node {
            rest.push((roads.len() - 1) as usize)
        } else {
            rest
        }
    }
}

/// The intersections with the roads that join them.
pub open spec fn intersections(sites: Seq<Site>, roads: Seq<Road>) -> Seq<IntersectionModel> {
    Seq::new(
        sites.len(),
        |i: int|
            IntersectionModel {
                id: i as usize,
                x: sites[i].x,
                y: sites[i].y,
                incoming: incoming(roads, i),
                outgoing: outgoing(roads, i),
                zone_weight: sites[i].zone_weight,
            },
    )
}

/// The city of a seed.
pub open spec fn city(seed: u64, params: ParamsModel) -> CityModel {
    let (hubs, words) = hubs(random::seeded(seed), params);
    let laid = roads(params, hubs, words);
    CityModel {
        intersections: intersections(sites(params, hubs), laid.roads),
        roads: laid.roads,
        seed,
        hub_centers: hubs,
    }
}

/// Whether a road is one that can be laid as road `id` between `sites`.
pub open spec fn sound_road(road: Road, id: int, sites: Seq<Site>) -> bool {
    &&& road.id == id as usize
    &&& road.from < sites.len()
    &&& road.to < sites.len()
    &&& road.from != road.to
    &&& 80 * ONE <= road.length < 220 * ONE
    &&& road.class.capacities().0 <= road.capacity <= road.class.capacities().1
    &&& MIN_INTENSITY <= road.base_intensity <= ONE
    &&& road.phase_group == phase_group(sites[road.from as int], sites[road.to as int])
    &&& road.class == RoadClass::Local <==> local_street(
        sites[road.from as int].zone_weight,
        sites[road.to as int].zone_weight,
    )
}

/// Whether a road between intersections of the given weights is local: neither
/// end is close to a hub, and the road is not central.
pub open spec fn local_street(from_weight: u64, to_weight: u64) -> bool {
    &&& from_weight <= HUB_WEIGHT
    &&& to_weight <= HUB_WEIGHT
    &&& from_weight + to_weight <= 2 * CENTRAL_WEIGHT
}

} // verus!
