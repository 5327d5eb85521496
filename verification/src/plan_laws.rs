//! What each step of the generation of a city does.

use vstd::arithmetic::div_mod::lemma_fundamental_div_mod;
use vstd::prelude::*;

use crate::city::{
    City, CityGenParams, CityModel, ParamsModel, PhaseGroup, Road, RoadClass, Site, CENTRAL_WEIGHT,
    CORE_ARTERIAL_PROB, HUB_WEIGHT, JITTER_PART, MAX_FRACTION, MIN_FALLOFF, MIN_INTENSITY,
    OUTSKIRTS_WEIGHT, SHORTCUT_BASE, SHORTCUT_GAIN,
};
use crate::city_laws;
use crate::decay;
use crate::fixed::ONE;
use crate::plan;
use crate::plan::Draft;
use crate::random;

verus! {

/// A city and its parameters are seen as they are, field by field.
pub proof fn law_a_city_is_seen_as_it_is(city: City, params: CityGenParams, i: int)
    ensures
        city@.roads == city.roads@,
        city@.seed == city.seed,
        city@.hub_centers == city.hub_centers@,
        city@.intersections.len() == city.intersections@.len(),
        0 <= i < city.intersections@.len() ==> {
            let node = city.intersections@[i];
            let seen = city@.intersections[i];
            &&& seen.id == node.id
            &&& seen.x == node.x
            &&& seen.y == node.y
            &&& seen.incoming == node.incoming@
            &&& seen.outgoing == node.outgoing@
            &&& seen.zone_weight == node.zone_weight
        },
        params@.grid_w == params.grid_w,
        params@.grid_h == params.grid_h,
        params@.extra_road_prob == params.extra_road_prob,
        params@.num_hubs == params.num_hubs,
        params@.hub_falloff == params.hub_falloff,
        params@.arterial_prob == params.arterial_prob,
        params@.arterial_intensity == params.arterial_intensity,
        params@.collector_intensity == params.collector_intensity,
        params@.local_intensity == params.local_intensity,
        params@.prune_prob == params.prune_prob,
{
}

/// Each hub is drawn after those before it, its column first and then its row,
/// over the whole width and height of the grid. A grid without columns or rows
/// counts as having one.
pub proof fn law_hubs_are_drawn_in_turn(words: Map<nat, u32>, params: ParamsModel, n: nat)
    requires
        params.valid(),
    ensures
        plan::drawn_hubs(words, params, 0) == (Seq::<(i32, i32)>::empty(), words),
        ({
            let (before, rest) = plan::drawn_hubs(words, params, n);
            let (hubs, left) = plan::drawn_hubs(words, params, n + 1);
            let last_x = if params.grid_w >= 1 { params.grid_w - 1 } else { 0 };
            let last_y = if params.grid_h >= 1 { params.grid_h - 1 } else { 0 };
            let between = random::after_between(rest, 0, last_x);
            &&& hubs.len() == before.len() + 1
            &&& hubs.drop_last() == before
            &&& hubs.last().0 == random::between(rest, 0, last_x)
            &&& hubs.last().1 == random::between(between, 0, last_y)
            &&& left == random::after_between(between, 0, last_y)
        }),
{
    let (before, rest) = plan::drawn_hubs(words, params, n);
    let (hubs, left) = plan::drawn_hubs(words, params, n + 1);
    assert(hubs.drop_last() =~= before);
}

/// The hubs of a city are its first draws, and its intersections lie row by row
/// on the grid, each with its number, its place and the weight of that place.
pub proof fn law_city_stands_on_its_grid(seed: u64, params: ParamsModel, i: int)
    requires
        params.valid(),
        0 <= i < params.grid_w * params.grid_h,
    ensures
        ({
            let city = plan::city(seed, params);
            let node = city.intersections[i];
            &&& city.seed == seed
            &&& params.num_hubs > 0 ==> city.hub_centers == plan::drawn_hubs(
                random::seeded(seed),
                params,
                params.num_hubs as nat,
            ).0
            &&& city.intersections.len() == params.grid_w * params.grid_h
            &&& node.id == i as usize
            &&& node.x == i % params.grid_w as int
            &&& node.y == i / params.grid_w as int
            &&& node.zone_weight == plan::zone_weight(
                params.hub_falloff,
                city.hub_centers,
                node.x,
                node.y,
            )
        }),
{
    let w = params.grid_w as int;
    let h = params.grid_h as int;
    assert(0 < w) by (nonlinear_arith)
        requires
            0 <= i < w * h,
            0 <= w,
            0 <= h,
    ;
    lemma_fundamental_div_mod(i, w);
    assert(0 <= i % w < w && 0 <= i / w < h) by (nonlinear_arith)
        requires
            0 <= i < w * h,
            0 < w,
            i == w * (i / w) + (i % w),
            0 <= i % w < w,
    ;
}

/// The influence of a hub at `(x, y)`, in parts of `ONE`: e to the minus
/// distance over falloff, the distance being Euclidean and the falloff at least
/// `MIN_FALLOFF`.
pub proof fn law_influence_is_a_decay(falloff: u64, x: i32, y: i32, hub: (i32, i32))
    ensures
        ({
            let square = (x - hub.0) * (x - hub.0) + (y - hub.1) * (y - hub.1);
            let reach = if falloff >= MIN_FALLOFF { falloff as int } else { MIN_FALLOFF as int };
            let dist = decay::distance(square as nat);
            let quarter = dist as int / 4;
            &&& dist == 4 * quarter
            &&& quarter * quarter <= square * 0x1000_0000_0000_0000 < (quarter + 1) * (quarter + 1)
            &&& plan::square_distance(x, y, hub) == square
            &&& plan::influence(falloff, plan::square_distance(x, y, hub)) == decay::decay(
                (dist as int * 0x1_0000_0000 / reach) as nat,
            )
        }),
{
    let dx = x - hub.0;
    let dy = y - hub.1;
    let square = dx * dx + dy * dy;
    assert(0 <= dx * dx) by (nonlinear_arith);
    assert(0 <= dy * dy) by (nonlinear_arith);
    decay::lemma_root_exists((square * 0x1000_0000_0000_0000) as nat);
    let reach = if falloff >= MIN_FALLOFF { falloff as nat } else { MIN_FALLOFF as nat };
    decay::lemma_decay_bound(decay::distance(square as nat) * ONE as nat / reach);
}

/// The influence of a hub at any distance: e to the minus distance over falloff.
pub proof fn law_influence_decays_over_the_falloff(dist: nat, falloff: u64)
    ensures
        falloff >= MIN_FALLOFF ==> plan::hub_influence(dist, falloff) == decay::decay(
            dist * 0x1_0000_0000 / falloff as nat,
        ),
        falloff <= MIN_FALLOFF ==> plan::hub_influence(dist, falloff) == decay::decay(
            dist * 0x1_0000_0000 / MIN_FALLOFF as nat,
        ),
{
}

/// The zone weight of a place is the influence of one of the hubs, and no hub has
/// more influence there. Without hubs it is `ONE` everywhere.
pub proof fn law_weight_is_the_strongest_influence(
    falloff: u64,
    hubs: Seq<(i32, i32)>,
    x: i32,
    y: i32,
)
    ensures
        hubs.len() == 0 ==> plan::zone_weight(falloff, hubs, x, y) == ONE,
        forall|k: int|
            0 <= k < hubs.len() ==> plan::influence(
                falloff,
                plan::square_distance(x, y, #[trigger] hubs[k]),
            ) <= plan::zone_weight(falloff, hubs, x, y),
        hubs.len() > 0 ==> exists|k: int|
            0 <= k < hubs.len() && plan::influence(
                falloff,
                plan::square_distance(x, y, #[trigger] hubs[k]),
            ) == plan::zone_weight(falloff, hubs, x, y),
{
    if hubs.len() > 0 {
        lemma_strongest_is_one(falloff, hubs, x, y);
    }
}

proof fn lemma_strongest_is_one(falloff: u64, hubs: Seq<(i32, i32)>, x: i32, y: i32)
    requires
        hubs.len() > 0,
    ensures
        plan::strongest(falloff, hubs, x, y) <= ONE,
        forall|k: int|
            0 <= k < hubs.len() ==> plan::influence(
                falloff,
                plan::square_distance(x, y, #[trigger] hubs[k]),
            ) <= plan::strongest(falloff, hubs, x, y),
        exists|k: int|
            0 <= k < hubs.len() && plan::influence(
                falloff,
                plan::square_distance(x, y, #[trigger] hubs[k]),
            ) == plan::strongest(falloff, hubs, x, y),
    decreases hubs.len(),
{
    let rest = hubs.drop_last();
    let last = hubs[hubs.len() - 1];
    city_laws::lemma_square(x, y, last);
    let square = plan::square_distance(x, y, last);
    city_laws::lemma_influence(falloff, square, square);
    if rest.len() > 0 {
        lemma_strongest_is_one(falloff, rest, x, y);
        let k = choose|k: int|
            0 <= k < rest.len() && plan::influence(
                falloff,
                plan::square_distance(x, y, #[trigger] rest[k]),
            ) == plan::strongest(falloff, rest, x, y);
        assert(hubs[k] == rest[k]);
        assert forall|j: int| 0 <= j < hubs.len() implies plan::influence(
            falloff,
            plan::square_distance(x, y, #[trigger] hubs[j]),
        ) <= plan::strongest(falloff, hubs, x, y) by {
            if j < rest.len() {
                assert(rest[j] == hubs[j]);
            }
        }
    }
}

/// The class of a road. Neither end close to a hub and the road not central: it
/// is local, without a draw. Otherwise it is arterial exactly where an event comes
/// true, and else a collector: of probability at least `CORE_ARTERIAL_PROB`, and
/// at least `arterial_prob`, where both ends are close to a hub, and of
/// `arterial_prob` times the mean weight of the ends elsewhere.
pub proof fn law_class_is_drawn_by_the_weights(
    words: Map<nat, u32>,
    a: u64,
    b: u64,
    params: ParamsModel,
    chance: int,
)
    ensures
        ({
            let (class, rest) = plan::drawn_class(words, a, b, params);
            let both = a > HUB_WEIGHT && b > HUB_WEIGHT;
            let one = (a > HUB_WEIGHT) != (b > HUB_WEIGHT);
            let central = a + b > 2 * CENTRAL_WEIGHT;
            let drawn = (class == if random::hits(words, chance) {
                RoadClass::Arterial
            } else {
                RoadClass::Collector
            }) && rest == random::after_chance(words, chance);
            &&& !both && !one && !central ==> class == RoadClass::Local && rest == words
            &&& both && chance == params.arterial_prob && params.arterial_prob
                >= CORE_ARTERIAL_PROB ==> drawn
            &&& both && chance == CORE_ARTERIAL_PROB && params.arterial_prob
                <= CORE_ARTERIAL_PROB ==> drawn
            &&& !both && (one || central) && chance == params.arterial_prob * (a + b)
                / 0x2_0000_0000int ==> drawn
        }),
{
}

/// The probability that a road is arterial: that of `arterial_prob`, but at least
/// `CORE_ARTERIAL_PROB`, where both ends are close to a hub; `arterial_prob` times
/// the mean weight where one end is, or the mean is above `CENTRAL_WEIGHT`; and
/// none at all elsewhere.
pub proof fn law_arterial_chance_by_the_weights(a: u64, b: u64, params: ParamsModel)
    ensures
        ({
            let chance = plan::arterial_chance(a, b, params);
            let both = a > HUB_WEIGHT && b > HUB_WEIGHT;
            let neither = a <= HUB_WEIGHT && b <= HUB_WEIGHT;
            &&& chance is None <==> neither && a + b <= 2 * CENTRAL_WEIGHT
            &&& both ==> chance->0 >= params.arterial_prob && chance->0 >= CORE_ARTERIAL_PROB
            &&& both ==> chance->0 == params.arterial_prob || chance->0 == CORE_ARTERIAL_PROB
            &&& chance is Some && !both ==> chance->0 * 0x2_0000_0000 <= params.arterial_prob * (a
                + b) < (chance->0 + 1) * 0x2_0000_0000
        }),
{
}

/// The distance of two coordinates has no sign, and a road belongs to the group of
/// its longer axis.
pub proof fn law_gap_and_dominant_axis(from: Site, to: Site)
    ensures
        plan::gap(from.x, to.x) >= 0,
        plan::gap(from.x, to.x) == from.x - to.x || plan::gap(from.x, to.x) == to.x - from.x,
        plan::gap(from.y, to.y) == plan::gap(to.y, from.y),
        plan::gap(from.y, to.y) < plan::gap(from.x, to.x) <==> plan::phase_group(from, to)
            == PhaseGroup::EastWest,
{
}

/// The intensity of a road, short of its bounds `MIN_INTENSITY` and `ONE`: the
/// place of the mean weight in the range, moved by at most `JITTER_PART` of the
/// width either way. The leading bits of the word pick the move: none of them the
/// lowest, all of them the highest, and the others in proportion.
pub proof fn law_intensity_stays_in_its_band(range: (i64, i64), a: u64, b: u64, word: u32)
    requires
        range.0 <= range.1,
    ensures
        ({
            let result = plan::intensity(range, a, b, word);
            let width = range.1 - range.0;
            let base = range.0 + width * (a + b) / 0x2_0000_0000int;
            let span = width * JITTER_PART / 0x1_0000_0000int;
            let leading = word as int / 512;
            let moved = result - base + span;
            &&& MIN_INTENSITY <= result <= ONE
            &&& result <= base + span || result == MIN_INTENSITY
            &&& result >= base - span || result == ONE
            &&& MIN_INTENSITY < result < ONE ==> moved * MAX_FRACTION <= 2 * span * leading
                < (moved + 1) * MAX_FRACTION
            &&& result == MIN_INTENSITY ==> 2 * span * leading < (moved + 1) * MAX_FRACTION
            &&& result == ONE ==> moved * MAX_FRACTION <= 2 * span * leading
        }),
{
    let width = range.1 - range.0;
    let span = width * JITTER_PART / ONE as int;
    let leading = word as int / 512;
    let max = MAX_FRACTION as int;
    assert(0 <= width * JITTER_PART) by (nonlinear_arith)
        requires
            0 <= width,
    ;
    assert(0 <= span);
    let x = 2 * span * leading;
    assert(0 <= x <= 2 * span * max) by (nonlinear_arith)
        requires
            0 <= span,
            0 <= leading <= max,
            x == 2 * span * leading,
    ;
    lemma_fundamental_div_mod(x, max);
    let q = x / max;
    assert(q * max <= x < (q + 1) * max) by (nonlinear_arith)
        requires
            x == max * q + x % max,
            0 <= x % max < max,
    ;
    assert(0 <= q <= 2 * span) by (nonlinear_arith)
        requires
            q * max <= x < (q + 1) * max,
            0 <= x <= 2 * span * max,
            max > 0,
    ;
    let base = range.0 + width * (a + b) / (2 * ONE as int);
    let result = plan::intensity(range, a, b, word);
    let moved = result - base + span;
    if base + q - span < MIN_INTENSITY {
        assert((moved + 1) * max >= (q + 1) * max) by (nonlinear_arith)
            requires
                moved >= q,
                max > 0,
        ;
    } else if base + q - span > ONE {
        assert(moved * max <= q * max) by (nonlinear_arith)
            requires
                moved <= q,
                max > 0,
        ;
    } else {
        assert(moved == q);
    }
}

/// How a road is laid: after its class come a word for its jitter, a draw of its
/// capacity from the range of its class, and a word for its length. Its intensity
/// lies in the range that the parameters give its class, and its phase group is
/// that of its longer axis, north-south where both are equal.
pub proof fn law_a_road_is_drawn_in_this_order(
    draft: Draft,
    sites: Seq<Site>,
    params: ParamsModel,
    from: int,
    to: int,
)
    requires
        params.valid(),
        0 <= from < sites.len() <= usize::MAX,
        0 <= to < sites.len(),
        draft.roads.len() < usize::MAX,
    ensures
        ({
            let next = plan::with_road(draft, sites, params, from, to);
            let road = next.roads.last();
            let a = sites[from].zone_weight;
            let b = sites[to].zone_weight;
            let (class, rest) = plan::drawn_class(draft.words, a, b, params);
            let (least, most) = match class {
                RoadClass::Arterial => (18int, 27int),
                RoadClass::Collector => (10int, 17int),
                RoadClass::Local => (5int, 9int),
            };
            let range = match class {
                RoadClass::Arterial => params.arterial_intensity,
                RoadClass::Collector => params.collector_intensity,
                RoadClass::Local => params.local_intensity,
            };
            let after_jitter = random::skip(rest, 1);
            let after_capacity = random::after_between(after_jitter, least, most);
            let dx = sites[from].x - sites[to].x;
            let dy = sites[from].y - sites[to].y;
            let wide = if dx < 0 { -dx } else { dx };
            let high = if dy < 0 { -dy } else { dy };
            &&& next.roads.len() == draft.roads.len() + 1
            &&& next.roads.drop_last() == draft.roads
            &&& road.id == draft.roads.len()
            &&& road.from == from
            &&& road.to == to
            &&& road.class == class
            &&& road.base_intensity == plan::intensity(range, a, b, rest[0])
            &&& road.capacity == random::between(after_jitter, least, most)
            &&& road.length == 80 * 0x1_0000_0000 + 140 * (after_capacity[0] as int / 512 * 512)
            &&& road.phase_group == PhaseGroup::NorthSouth <==> high >= wide
            &&& next.words == random::skip(after_capacity, 1)
        }),
{
    reveal(plan::with_road);
    let next = plan::with_road(draft, sites, params, from, to);
    assert(next.roads.drop_last() =~= draft.roads);
    let a = sites[from].zone_weight;
    let b = sites[to].zone_weight;
    let (class, rest) = plan::drawn_class(draft.words, a, b, params);
    law_intensity_stays_in_its_band(params.intensity_range(class), a, b, rest[0]);
}

/// Road `k` was laid after the roads before it, with these words.
pub open spec fn laid_with(
    roads: Seq<Road>,
    sites: Seq<Site>,
    params: ParamsModel,
    k: int,
    words: Map<nat, u32>,
) -> bool {
    plan::with_road(
        Draft { roads: roads.take(k), words },
        sites,
        params,
        roads[k].from as int,
        roads[k].to as int,
    ).roads == roads.take(k + 1)
}

/// Road `k` was laid after the roads before it.
pub open spec fn is_laid(
    roads: Seq<Road>,
    sites: Seq<Site>,
    params: ParamsModel,
    k: int,
) -> bool {
    exists|words: Map<nat, u32>| laid_with(roads, sites, params, k, words)
}

/// Every road was laid after the roads before it.
pub open spec fn all_laid(roads: Seq<Road>, sites: Seq<Site>, params: ParamsModel) -> bool {
    forall|k: int| 0 <= k < roads.len() ==> #[trigger] is_laid(roads, sites, params, k)
}

proof fn lemma_laid_road(
    draft: Draft,
    sites: Seq<Site>,
    params: ParamsModel,
    from: int,
    to: int,
)
    requires
        all_laid(draft.roads, sites, params),
        0 <= from < sites.len() <= usize::MAX,
        0 <= to < sites.len(),
    ensures
        all_laid(plan::with_road(draft, sites, params, from, to).roads, sites, params),
{
    let next = plan::with_road(draft, sites, params, from, to).roads;
    let len = draft.roads.len() as int;
    assert(next.len() == len + 1 && next.drop_last() =~= draft.roads && next[len].from == from
        && next[len].to == to) by {
        reveal(plan::with_road);
    }
    assert forall|k: int| 0 <= k < next.len() implies #[trigger] is_laid(
        next,
        sites,
        params,
        k,
    ) by {
        if k < len {
            assert(is_laid(draft.roads, sites, params, k));
            assert(next.drop_last()[k] == next[k]);
            assert(draft.roads[k] == next[k]);
            let words = choose|words: Map<nat, u32>|
                laid_with(draft.roads, sites, params, k, words);
            assert(next.take(k) =~= draft.roads.take(k));
            assert(next.take(k + 1) =~= draft.roads.take(k + 1));
            assert(laid_with(next, sites, params, k, words));
        } else {
            assert(next.take(len) =~= draft.roads);
            assert(next.take(len + 1) =~= next);
            assert(laid_with(next, sites, params, k, draft.words));
        }
    }
}

proof fn lemma_laid_edge(
    draft: Draft,
    sites: Seq<Site>,
    params: ParamsModel,
    a: int,
    b: int,
    spare: bool,
)
    requires
        all_laid(draft.roads, sites, params),
        0 <= a < sites.len() <= usize::MAX,
        0 <= b < sites.len(),
    ensures
        all_laid(plan::with_edge(draft, sites, params, a, b, spare).roads, sites, params),
{
    reveal(plan::with_edge);
    let drawn = Draft {
        roads: draft.roads,
        words: random::after_chance(draft.words, params.prune_prob as int),
    };
    lemma_laid_road(draft, sites, params, a, b);
    lemma_laid_road(plan::with_road(draft, sites, params, a, b), sites, params, b, a);
    lemma_laid_road(drawn, sites, params, a, b);
    lemma_laid_road(plan::with_road(drawn, sites, params, a, b), sites, params, b, a);
}

proof fn lemma_laid_cell(draft: Draft, sites: Seq<Site>, params: ParamsModel, x: int, y: int)
    requires
        all_laid(draft.roads, sites, params),
        0 <= x < params.grid_w,
        0 <= y < params.grid_h,
        sites.len() == params.grid_w * params.grid_h <= usize::MAX,
    ensures
        all_laid(plan::with_cell(draft, sites, params, x, y).roads, sites, params),
{
    reveal(plan::with_cell);
    let w = params.grid_w as int;
    let h = params.grid_h as int;
    let id = y * w + x;
    crate::city::lemma_row_fits(w, h, y);
    let spare = plan::spare_right(draft.roads, params, x, y);
    let right = if x + 1 < w {
        plan::with_edge(draft, sites, params, id, id + 1, spare)
    } else {
        draft
    };
    if x + 1 < w {
        lemma_laid_edge(draft, sites, params, id, id + 1, spare);
    }
    if y + 1 < h {
        let spare = plan::spare_down(right.roads, params, x, y);
        lemma_laid_edge(right, sites, params, id, id + w, spare);
    }
}

proof fn lemma_laid_row(draft: Draft, sites: Seq<Site>, params: ParamsModel, x: int, y: int)
    requires
        all_laid(draft.roads, sites, params),
        0 <= x <= params.grid_w,
        0 <= y < params.grid_h,
        sites.len() == params.grid_w * params.grid_h <= usize::MAX,
    ensures
        all_laid(plan::with_row(draft, sites, params, x, y).roads, sites, params),
    decreases x,
{
    if x > 0 {
        lemma_laid_row(draft, sites, params, x - 1, y);
        lemma_laid_cell(plan::with_row(draft, sites, params, x - 1, y), sites, params, x - 1, y);
    }
}

proof fn lemma_laid_rows(draft: Draft, sites: Seq<Site>, params: ParamsModel, y: int)
    requires
        all_laid(draft.roads, sites, params),
        0 <= y <= params.grid_h,
        sites.len() == params.grid_w * params.grid_h <= usize::MAX,
    ensures
        all_laid(plan::with_rows(draft, sites, params, y).roads, sites, params),
    decreases y,
{
    if y > 0 {
        lemma_laid_rows(draft, sites, params, y - 1);
        lemma_laid_row(
            plan::with_rows(draft, sites, params, y - 1),
            sites,
            params,
            params.grid_w as int,
            y - 1,
        );
    }
}

proof fn lemma_laid_shortcuts_from(
    draft: Draft,
    sites: Seq<Site>,
    params: ParamsModel,
    a: int,
    b: int,
)
    requires
        all_laid(draft.roads, sites, params),
        0 <= a < sites.len() <= usize::MAX,
        0 <= b <= sites.len(),
    ensures
        all_laid(plan::with_shortcuts_from(draft, sites, params, a, b).roads, sites, params),
    decreases b,
{
    if b > 0 {
        lemma_laid_shortcuts_from(draft, sites, params, a, b - 1);
        let before = plan::with_shortcuts_from(draft, sites, params, a, b - 1);
        let chance = plan::shortcut_chance(sites[a].zone_weight, params);
        let drawn = Draft {
            roads: before.roads,
            words: random::after_chance(before.words, chance),
        };
        lemma_laid_road(drawn, sites, params, a, b - 1);
    }
}

proof fn lemma_laid_shortcuts(draft: Draft, sites: Seq<Site>, params: ParamsModel, a: int)
    requires
        all_laid(draft.roads, sites, params),
        0 <= a <= sites.len(),
        sites.len() == params.grid_w * params.grid_h <= usize::MAX,
    ensures
        all_laid(plan::with_shortcuts(draft, sites, params, a).roads, sites, params),
    decreases a,
{
    if a > 0 {
        lemma_laid_shortcuts(draft, sites, params, a - 1);
        lemma_laid_shortcuts_from(
            plan::with_shortcuts(draft, sites, params, a - 1),
            sites,
            params,
            a - 1,
            plan::size(params),
        );
    }
}

proof fn lemma_laid_city(seed: u64, params: ParamsModel)
    requires
        params.valid(),
    ensures
        all_laid(plan::city(seed, params).roads, city_laws::city_sites(seed, params), params),
{
    let (hubs, words) = plan::hubs(random::seeded(seed), params);
    let sites = plan::sites(params, hubs);
    assert(0 <= params.grid_w * params.grid_h) by (nonlinear_arith);
    let start = Draft { roads: Seq::empty(), words };
    lemma_laid_rows(start, sites, params, params.grid_h as int);
    let laid = plan::grid(params, hubs, words);
    if plan::size(params) > 1 {
        lemma_laid_shortcuts(laid, sites, params, plan::size(params));
    }
}

/// Every road of a city, grid road or shortcut, was laid after the roads before
/// it, in the way that a road is laid.
pub proof fn law_every_road_is_laid_alike(seed: u64, params: ParamsModel, k: int) -> (words: Map<
    nat,
    u32,
>)
    requires
        params.valid(),
        0 <= k < plan::city(seed, params).roads.len(),
    ensures
        ({
            let roads = plan::city(seed, params).roads;
            plan::with_road(
                Draft { roads: roads.take(k), words },
                city_laws::city_sites(seed, params),
                params,
                roads[k].from as int,
                roads[k].to as int,
            ).roads == roads.take(k + 1)
        }),
{
    lemma_laid_city(seed, params);
    let roads = plan::city(seed, params).roads;
    let sites = city_laws::city_sites(seed, params);
    assert(is_laid(roads, sites, params, k));
    choose|words: Map<nat, u32>| laid_with(roads, sites, params, k, words)
}

/// The intensity of a road of a city lies in the range of its class: short of its
/// bounds it differs from the place of the mean weight of its ends in
/// `arterial_intensity`, `collector_intensity` or `local_intensity` by at most
/// `JITTER_PART` of the width of that range.
pub proof fn law_intensity_follows_the_class(
    city: CityModel,
    seed: u64,
    params: ParamsModel,
    k: int,
)
    requires
        params.valid(),
        city == plan::city(seed, params),
        city.wf(),
        0 <= k < city.roads.len(),
    ensures
        ({
            let road = city.roads[k];
            let range = match road.class {
                RoadClass::Arterial => params.arterial_intensity,
                RoadClass::Collector => params.collector_intensity,
                RoadClass::Local => params.local_intensity,
            };
            let total = city.intersections[road.from as int].zone_weight
                + city.intersections[road.to as int].zone_weight;
            let width = range.1 - range.0;
            let base = range.0 + width * total / 0x2_0000_0000int;
            let span = width * JITTER_PART / 0x1_0000_0000int;
            &&& road.base_intensity <= base + span || road.base_intensity == MIN_INTENSITY
            &&& road.base_intensity >= base - span || road.base_intensity == ONE
            &&& MIN_INTENSITY <= road.base_intensity <= ONE
        }),
{
    let words = law_every_road_is_laid_alike(seed, params, k);
    let sites = city_laws::city_sites(seed, params);
    let road = city.roads[k];
    let draft = Draft { roads: city.roads.take(k), words };
    assert(plan::sound_road(road, k, city.sites()));
    assert(0 <= params.grid_w * params.grid_h) by (nonlinear_arith);
    law_a_road_is_drawn_in_this_order(draft, sites, params, road.from as int, road.to as int);
    assert(city.roads.take(k + 1).last() == road);
    let a = sites[road.from as int].zone_weight;
    let b = sites[road.to as int].zone_weight;
    let (class, rest) = plan::drawn_class(words, a, b, params);
    law_intensity_stays_in_its_band(params.intensity_range(class), a, b, rest[0]);
}

/// A grid edge is left out exactly where it lies in the outskirts, the draw of
/// probability `prune_prob` comes true, and it is spare. Otherwise both its
/// directions are laid. The draw is made for every edge in the outskirts, and for
/// no other.
pub proof fn law_an_edge_is_pruned_or_laid_both_ways(
    draft: Draft,
    sites: Seq<Site>,
    params: ParamsModel,
    a: int,
    b: int,
    spare: bool,
)
    ensures
        ({
            let next = plan::with_edge(draft, sites, params, a, b, spare);
            let outskirts = sites[a].zone_weight + sites[b].zone_weight < 2 * OUTSKIRTS_WEIGHT;
            let words = if outskirts {
                random::after_chance(draft.words, params.prune_prob as int)
            } else {
                draft.words
            };
            let start = Draft { roads: draft.roads, words };
            let there = plan::with_road(start, sites, params, a, b);
            if outskirts && random::hits(draft.words, params.prune_prob as int) && spare {
                next == start
            } else {
                next == plan::with_road(there, sites, params, b, a)
            }
        }),
{
    reveal(plan::with_edge);
}

/// An edge to the right is spare exactly where it is neither the first nor the
/// last of its row nor in the first row, and the edge before it, the one above it
/// and the two between these are laid. An edge down is spare exactly where it is
/// neither the first nor the last of its column nor in the first column, and the
/// edge before it, the one to its left and the one between their upper ends are
/// laid.
pub proof fn law_spare_edges_are_redundant(
    roads: Seq<Road>,
    params: ParamsModel,
    x: int,
    y: int,
)
    ensures
        ({
            let w = params.grid_w as int;
            let id = y * w + x;
            let linked = |a: int, b: int|
                exists|k: int|
                    0 <= k < roads.len() && (#[trigger] roads[k]).from == a && roads[k].to == b;
            plan::spare_right(roads, params, x, y) <==> {
                &&& 1 <= x <= w - 3
                &&& y >= 1
                &&& linked(id, id - 1)
                &&& linked(id - w + 1, id - w)
                &&& linked(id, id - w)
                &&& linked(id + 1, id - w + 1)
            }
        }),
        ({
            let w = params.grid_w as int;
            let id = y * w + x;
            let linked = |a: int, b: int|
                exists|k: int|
                    0 <= k < roads.len() && (#[trigger] roads[k]).from == a && roads[k].to == b;
            plan::spare_down(roads, params, x, y) <==> {
                &&& 1 <= y <= params.grid_h - 3
                &&& x >= 1
                &&& linked(id, id - w)
                &&& linked(id - 1 + w, id - 1)
                &&& linked(id, id - 1)
            }
        }),
{
}

/// The edges of an intersection: first that to its right neighbour, then that to
/// its lower neighbour, as far as it has them.
pub proof fn law_edges_of_an_intersection(
    draft: Draft,
    sites: Seq<Site>,
    params: ParamsModel,
    x: int,
    y: int,
)
    ensures
        ({
            let id = y * params.grid_w + x;
            let right = plan::with_edge(
                draft,
                sites,
                params,
                id,
                id + 1,
                plan::spare_right(draft.roads, params, x, y),
            );
            let start = if x + 1 < params.grid_w {
                right
            } else {
                draft
            };
            let down = plan::with_edge(
                start,
                sites,
                params,
                id,
                id + params.grid_w,
                plan::spare_down(start.roads, params, x, y),
            );
            plan::with_cell(draft, sites, params, x, y) == if y + 1 < params.grid_h {
                down
            } else {
                start
            }
        }),
{
    reveal(plan::with_cell);
}

/// A shortcut from `a` to another intersection is laid exactly where a draw comes
/// true, whose probability is an even share of `extra_road_prob` times a scale by
/// the weight of `a`. None leads from an intersection to itself, and none is drawn.
pub proof fn law_a_shortcut_is_drawn_by_the_weight_of_its_start(
    draft: Draft,
    sites: Seq<Site>,
    params: ParamsModel,
    a: int,
    b: int,
)
    ensures
        ({
            let next = plan::with_shortcut(draft, sites, params, a, b);
            let scale = SHORTCUT_BASE + SHORTCUT_GAIN * sites[a].zone_weight / 0x1_0000_0000int;
            let chance = params.extra_road_prob * scale / (0x1_0000_0000 * (params.grid_w
                * params.grid_h));
            let drawn = Draft {
                roads: draft.roads,
                words: random::after_chance(draft.words, chance),
            };
            &&& plan::shortcut_chance(sites[a].zone_weight, params) == chance
            &&& a == b ==> next == draft
            &&& a != b && !random::hits(draft.words, chance) ==> next == drawn
            &&& a != b && random::hits(draft.words, chance) ==> next == plan::with_road(
                drawn,
                sites,
                params,
                a,
                b,
            )
        }),
{
}

/// The roads of a city are laid in order: the edges row by row, each row from its
/// first intersection to its last, and then the shortcuts, from each intersection
/// to each, in the order of their numbers. The draws go on from those of the hubs.
pub proof fn law_roads_are_laid_in_order(
    draft: Draft,
    sites: Seq<Site>,
    params: ParamsModel,
    i: int,
    j: int,
    seed: u64,
)
    requires
        0 <= i,
        0 <= j,
    ensures
        plan::with_row(draft, sites, params, 0, i) == draft,
        plan::with_row(draft, sites, params, j + 1, i) == plan::with_cell(
            plan::with_row(draft, sites, params, j, i),
            sites,
            params,
            j,
            i,
        ),
        plan::with_rows(draft, sites, params, 0) == draft,
        plan::with_rows(draft, sites, params, i + 1) == plan::with_row(
            plan::with_rows(draft, sites, params, i),
            sites,
            params,
            params.grid_w as int,
            i,
        ),
        plan::with_shortcuts_from(draft, sites, params, i, 0) == draft,
        plan::with_shortcuts_from(draft, sites, params, i, j + 1) == plan::with_shortcut(
            plan::with_shortcuts_from(draft, sites, params, i, j),
            sites,
            params,
            i,
            j,
        ),
        plan::with_shortcuts(draft, sites, params, 0) == draft,
        plan::with_shortcuts(draft, sites, params, i + 1) == plan::with_shortcuts_from(
            plan::with_shortcuts(draft, sites, params, i),
            sites,
            params,
            i,
            params.grid_w * params.grid_h,
        ),
        ({
            let count = params.grid_w * params.grid_h;
            let words = if params.num_hubs == 0 {
                random::seeded(seed)
            } else {
                plan::drawn_hubs(random::seeded(seed), params, params.num_hubs as nat).1
            };
            let places = plan::sites(params, plan::city(seed, params).hub_centers);
            let grid = plan::with_rows(
                Draft { roads: Seq::empty(), words },
                places,
                params,
                params.grid_h as int,
            );
            plan::city(seed, params).roads == if count > 1 {
                plan::with_shortcuts(grid, places, params, count).roads
            } else {
                grid.roads
            }
        }),
{
}

} // verus!
