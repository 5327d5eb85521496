//! What holds of every generated city.

use vstd::prelude::*;

use crate::city::{
    City, CityModel, ParamsModel, Road, RoadClass, Site, HUB_WEIGHT, MIN_FALLOFF,
    SHORTCUT_BASE, SHORTCUT_GAIN,
};
use crate::decay;
use crate::fixed::ONE;
use crate::plan;
use crate::plan::Draft;
use crate::random;

verus! {

/// Whether all roads laid so far are sound.
pub open spec fn sound(roads: Seq<Road>, sites: Seq<Site>) -> bool {
    forall|k: int| 0 <= k < roads.len() ==> plan::sound_road(#[trigger] roads[k], k, sites)
}

proof fn lemma_with_road(
    draft: Draft,
    sites: Seq<Site>,
    params: ParamsModel,
    from: int,
    to: int,
)
    requires
        sound(draft.roads, sites),
        0 <= from < sites.len() <= usize::MAX,
        0 <= to < sites.len(),
        from != to,
    ensures
        sound(plan::with_road(draft, sites, params, from, to).roads, sites),
        plan::with_road(draft, sites, params, from, to).roads.len() == draft.roads.len() + 1,
        plan::with_road(draft, sites, params, from, to).roads.drop_last() == draft.roads,
        plan::with_road(draft, sites, params, from, to).roads.last().from == from,
        plan::with_road(draft, sites, params, from, to).roads.last().to == to,
{
    reveal(plan::with_road);
    let next = plan::with_road(draft, sites, params, from, to);
    assert(next.roads.drop_last() =~= draft.roads);
    assert forall|k: int| 0 <= k < next.roads.len() implies plan::sound_road(
        #[trigger] next.roads[k],
        k,
        sites,
    ) by {
        if k < draft.roads.len() {
            assert(next.roads[k] == draft.roads[k]);
        }
    }
}

/// The two roads of an edge lie next to each other, and are laid unless the
/// edge is spare and in the outskirts.
proof fn lemma_with_edge(
    draft: Draft,
    sites: Seq<Site>,
    params: ParamsModel,
    a: int,
    b: int,
    spare: bool,
)
    requires
        sound(draft.roads, sites),
        0 <= a < sites.len() <= usize::MAX,
        0 <= b < sites.len(),
        a != b,
    ensures
        ({
            let next = plan::with_edge(draft, sites, params, a, b, spare).roads;
            let len = draft.roads.len() as int;
            &&& sound(next, sites)
            &&& next.len() == len || next.len() == len + 2
            &&& next.subrange(0, len) == draft.roads
            &&& next.len() == len + 2 ==> {
                &&& next[len].from == a && next[len].to == b
                &&& next[len + 1].from == b && next[len + 1].to == a
            }
            &&& (!spare || !plan::in_outskirts(sites, a, b) || params.prune_prob == 0)
                ==> next.len() == len + 2
        }),
{
    reveal(plan::with_edge);
    let start = if plan::in_outskirts(sites, a, b) {
        Draft {
            roads: draft.roads,
            words: random::after_chance(draft.words, params.prune_prob as int),
        }
    } else {
        draft
    };
    let one = plan::with_road(start, sites, params, a, b);
    let two = plan::with_road(one, sites, params, b, a);
    lemma_with_road(start, sites, params, a, b);
    lemma_with_road(one, sites, params, b, a);
    let len = draft.roads.len() as int;
    assert(two.roads.subrange(0, len) =~= draft.roads) by {
        assert forall|k: int| 0 <= k < len implies two.roads[k] == draft.roads[k] by {
            assert(two.roads[k] == two.roads.drop_last()[k]);
            assert(one.roads[k] == one.roads.drop_last()[k]);
        }
    }
    assert(two.roads[len] == two.roads.drop_last()[len]);
    assert(draft.roads.subrange(0, len) =~= draft.roads);
}

/// Roads `2 * j` and `2 * j + 1` are the two directions of one grid edge.
pub open spec fn pair_at(roads: Seq<Road>, j: int, w: int) -> bool {
    let out = roads[2 * j];
    let back = roads[2 * j + 1];
    &&& out.from == back.to
    &&& out.to == back.from
    &&& out.to == out.from + 1 || out.to == out.from + w
}

/// The roads come in pairs, each the two directions of one grid edge.
pub open spec fn paired(roads: Seq<Road>, w: int) -> bool {
    &&& roads.len() % 2 == 0
    &&& forall|j: int| 0 <= j && 2 * j + 1 < roads.len() ==> #[trigger] pair_at(roads, j, w)
}

/// Road `k` leads from `a` to `b`, and road `k + 1` back.
pub open spec fn edge_at(roads: Seq<Road>, k: int, a: int, b: int) -> bool {
    &&& 0 <= k
    &&& k + 1 < roads.len()
    &&& roads[k].from == a
    &&& roads[k].to == b
    &&& roads[k + 1].from == b
    &&& roads[k + 1].to == a
}

/// There is a road each way between `a` and `b`.
pub open spec fn joined(roads: Seq<Road>, a: int, b: int) -> bool {
    exists|k: int| edge_at(roads, k, a, b)
}

/// Whether a grid edge can not be left out: it is not spare, or outside the
/// outskirts, or nothing is ever left out.
pub open spec fn fixture(
    sites: Seq<Site>,
    params: ParamsModel,
    a: int,
    b: int,
    spare: bool,
) -> bool {
    !spare || !plan::in_outskirts(sites, a, b) || params.prune_prob == 0
}

/// The edge above that from `id` to its right neighbour is there, and so are the
/// two edges between these: there is a way round.
pub open spec fn way_round_above(roads: Seq<Road>, w: int, id: int) -> bool {
    &&& joined(roads, id - w, id + 1 - w)
    &&& joined(roads, id - w, id)
    &&& joined(roads, id + 1 - w, id + 1)
}

/// The edge to the left of that from `id` to its lower neighbour is there, and so
/// is the edge between their upper ends.
pub open spec fn way_round_left(roads: Seq<Road>, w: int, id: int) -> bool {
    &&& joined(roads, id - 1, id)
    &&& joined(roads, id - 1, id - 1 + w)
}

/// The edge to the right of column `x` in row `y` is there; or it can be left
/// out, the edge before it is there, and there is a way round it above.
pub open spec fn right_kept(
    roads: Seq<Road>,
    sites: Seq<Site>,
    params: ParamsModel,
    x: int,
    y: int,
) -> bool {
    let w = params.grid_w as int;
    let id = y * w + x;
    ||| joined(roads, id, id + 1)
    ||| {
        &&& 0 < x && x + 2 < w && 0 < y
        &&& !fixture(sites, params, id, id + 1, true)
        &&& joined(roads, id - 1, id)
        &&& way_round_above(roads, w, id)
    }
}

/// The edge down from column `x` in row `y` is there; or it can be left out, the
/// edge before it is there, and there is a way round it on the left.
pub open spec fn down_kept(
    roads: Seq<Road>,
    sites: Seq<Site>,
    params: ParamsModel,
    x: int,
    y: int,
) -> bool {
    let w = params.grid_w as int;
    let id = y * w + x;
    ||| joined(roads, id, id + w)
    ||| {
        &&& 0 < y && y + 2 < params.grid_h && 0 < x
        &&& !fixture(sites, params, id, id + w, true)
        &&& joined(roads, id - w, id)
        &&& way_round_left(roads, w, id)
    }
}

/// The edges to the right and down of column `x` in row `y` are there, or were
/// left out as redundant.
pub open spec fn cell_kept(
    roads: Seq<Road>,
    sites: Seq<Site>,
    params: ParamsModel,
    x: int,
    y: int,
) -> bool {
    &&& x + 1 < params.grid_w ==> right_kept(roads, sites, params, x, y)
    &&& y + 1 < params.grid_h ==> down_kept(roads, sites, params, x, y)
}

/// `whole` starts with `part`.
pub open spec fn extends(whole: Seq<Road>, part: Seq<Road>) -> bool {
    &&& part.len() <= whole.len()
    &&& whole.subrange(0, part.len() as int) == part
}

proof fn lemma_extends_index(whole: Seq<Road>, part: Seq<Road>)
    requires
        extends(whole, part),
    ensures
        forall|k: int| 0 <= k < part.len() ==> #[trigger] whole[k] == part[k],
{
    assert forall|k: int| 0 <= k < part.len() implies #[trigger] whole[k] == part[k] by {
        assert(whole.subrange(0, part.len() as int)[k] == whole[k]);
    }
}

proof fn lemma_extends_trans(a: Seq<Road>, b: Seq<Road>, c: Seq<Road>)
    requires
        extends(a, b),
        extends(b, c),
    ensures
        extends(a, c),
{
    lemma_extends_index(a, b);
    lemma_extends_index(b, c);
    assert(a.subrange(0, c.len() as int) =~= c);
}

proof fn lemma_joined_extends(whole: Seq<Road>, part: Seq<Road>, a: int, b: int)
    requires
        extends(whole, part),
        joined(part, a, b),
    ensures
        joined(whole, a, b),
{
    lemma_extends_index(whole, part);
    let k = choose|k: int| edge_at(part, k, a, b);
    assert(edge_at(whole, k, a, b));
}

proof fn lemma_kept_extends(
    whole: Seq<Road>,
    part: Seq<Road>,
    sites: Seq<Site>,
    params: ParamsModel,
    x: int,
    y: int,
)
    requires
        extends(whole, part),
        cell_kept(part, sites, params, x, y),
    ensures
        cell_kept(whole, sites, params, x, y),
{
    assert forall|a: int, b: int| #[trigger] joined(part, a, b) implies joined(whole, a, b) by {
        lemma_joined_extends(whole, part, a, b);
    }
}

/// Where the roads come in pairs, a road back along a grid edge comes with the
/// road there.
proof fn lemma_paired_joined(roads: Seq<Road>, w: int, a: int, b: int)
    requires
        paired(roads, w),
        0 < w,
        a < b,
        plan::has_road(roads, b, a),
    ensures
        joined(roads, a, b),
{
    let k = choose|k: int|
        0 <= k < roads.len() && (#[trigger] roads[k]).from == b && roads[k].to == a;
    let j = k / 2;
    assert(pair_at(roads, j, w));
    assert(edge_at(roads, 2 * j, a, b));
}

/// What an edge adds, as far as pairs and joins go.
proof fn lemma_edge_pairs(
    draft: Draft,
    sites: Seq<Site>,
    params: ParamsModel,
    a: int,
    b: int,
    spare: bool,
)
    requires
        sound(draft.roads, sites),
        paired(draft.roads, params.grid_w as int),
        0 <= a < b < sites.len() <= usize::MAX,
        b == a + 1 || b == a + params.grid_w,
    ensures
        ({
            let next = plan::with_edge(draft, sites, params, a, b, spare).roads;
            &&& sound(next, sites)
            &&& paired(next, params.grid_w as int)
            &&& extends(next, draft.roads)
            &&& fixture(sites, params, a, b, spare) ==> joined(next, a, b)
            &&& params.prune_prob == 0 ==> next.len() == draft.roads.len() + 2
        }),
{
    lemma_with_edge(draft, sites, params, a, b, spare);
    let next = plan::with_edge(draft, sites, params, a, b, spare).roads;
    let len = draft.roads.len() as int;
    lemma_extends_index(next, draft.roads);
    let w = params.grid_w as int;
    assert forall|j: int| 0 <= j && 2 * j + 1 < next.len() implies #[trigger] pair_at(
        next,
        j,
        w,
    ) by {
        if 2 * j + 1 < len {
            assert(pair_at(draft.roads, j, w));
        } else {
            assert(2 * j == len);
        }
    }
    if next.len() == len + 2 {
        assert(edge_at(next, len, a, b));
    }
}

proof fn lemma_with_cell(draft: Draft, sites: Seq<Site>, params: ParamsModel, x: int, y: int)
    requires
        sound(draft.roads, sites),
        paired(draft.roads, params.grid_w as int),
        0 <= x < params.grid_w,
        0 <= y < params.grid_h,
        sites.len() == plan::size(params) <= usize::MAX,
    ensures
        ({
            let next = plan::with_cell(draft, sites, params, x, y).roads;
            &&& sound(next, sites)
            &&& paired(next, params.grid_w as int)
            &&& extends(next, draft.roads)
            &&& cell_kept(next, sites, params, x, y)
            &&& params.prune_prob == 0 ==> next.len() == draft.roads.len() + (if x + 1
                < params.grid_w {
                2int
            } else {
                0
            }) + (if y + 1 < params.grid_h {
                2int
            } else {
                0
            })
        }),
{
    reveal(plan::with_cell);
    let w = params.grid_w as int;
    let h = params.grid_h as int;
    let id = y * w + x;
    crate::city::lemma_row_fits(w, h, y);
    let spare_right = plan::spare_right(draft.roads, params, x, y);
    let right = if x + 1 < w {
        plan::with_edge(draft, sites, params, id, id + 1, spare_right)
    } else {
        draft
    };
    if x + 1 < w {
        lemma_edge_pairs(draft, sites, params, id, id + 1, spare_right);
        if spare_right {
            lemma_paired_joined(draft.roads, w, id - 1, id);
            lemma_paired_joined(draft.roads, w, id - w, id + 1 - w);
            lemma_paired_joined(draft.roads, w, id - w, id);
            lemma_paired_joined(draft.roads, w, id + 1 - w, id + 1);
            lemma_joined_extends(right.roads, draft.roads, id - 1, id);
            lemma_joined_extends(right.roads, draft.roads, id - w, id + 1 - w);
            lemma_joined_extends(right.roads, draft.roads, id - w, id);
            lemma_joined_extends(right.roads, draft.roads, id + 1 - w, id + 1);
        }
        assert(right_kept(right.roads, sites, params, x, y));
    } else {
        assert(draft.roads.subrange(0, draft.roads.len() as int) =~= draft.roads);
    }
    if y + 1 < h {
        let spare_down = plan::spare_down(right.roads, params, x, y);
        lemma_edge_pairs(right, sites, params, id, id + w, spare_down);
        let next = plan::with_edge(right, sites, params, id, id + w, spare_down);
        lemma_extends_trans(next.roads, right.roads, draft.roads);
        assert forall|a: int, b: int| #[trigger] joined(right.roads, a, b) implies joined(
            next.roads,
            a,
            b,
        ) by {
            lemma_joined_extends(next.roads, right.roads, a, b);
        }
        if spare_down {
            lemma_paired_joined(right.roads, w, id - w, id);
            lemma_paired_joined(right.roads, w, id - 1, id);
            lemma_paired_joined(right.roads, w, id - 1, id - 1 + w);
        }
        assert(down_kept(next.roads, sites, params, x, y));
    }
}

/// How many of the first `x` intersections of a row have one to their right,
/// or how many of the first `y` rows have one below.
pub open spec fn inner(count: int, total: int) -> int {
    if count < total {
        count
    } else {
        total - 1
    }
}

proof fn lemma_with_row(draft: Draft, sites: Seq<Site>, params: ParamsModel, x: int, y: int)
    requires
        sound(draft.roads, sites),
        paired(draft.roads, params.grid_w as int),
        0 <= x <= params.grid_w,
        0 <= y < params.grid_h,
        sites.len() == plan::size(params) <= usize::MAX,
    ensures
        ({
            let next = plan::with_row(draft, sites, params, x, y).roads;
            &&& sound(next, sites)
            &&& paired(next, params.grid_w as int)
            &&& extends(next, draft.roads)
            &&& forall|i: int| 0 <= i < x ==> #[trigger] cell_kept(next, sites, params, i, y)
            &&& params.prune_prob == 0 && params.grid_w > 0 ==> next.len() == draft.roads.len() + 2
                * inner(x, params.grid_w as int) + (if y + 1 < params.grid_h {
                2 * x
            } else {
                0
            })
        }),
    decreases x,
{
    let next = plan::with_row(draft, sites, params, x, y);
    if x <= 0 {
        assert(draft.roads.subrange(0, draft.roads.len() as int) =~= draft.roads);
    } else {
        lemma_with_row(draft, sites, params, x - 1, y);
        let before = plan::with_row(draft, sites, params, x - 1, y);
        lemma_with_cell(before, sites, params, x - 1, y);
        lemma_extends_trans(next.roads, before.roads, draft.roads);
        assert forall|i: int| 0 <= i < x implies #[trigger] cell_kept(
            next.roads,
            sites,
            params,
            i,
            y,
        ) by {
            if i < x - 1 {
                lemma_kept_extends(next.roads, before.roads, sites, params, i, y);
            }
        }
    }
}

proof fn lemma_with_rows(draft: Draft, sites: Seq<Site>, params: ParamsModel, y: int)
    requires
        sound(draft.roads, sites),
        paired(draft.roads, params.grid_w as int),
        0 <= y <= params.grid_h,
        sites.len() == plan::size(params) <= usize::MAX,
    ensures
        ({
            let next = plan::with_rows(draft, sites, params, y).roads;
            &&& sound(next, sites)
            &&& paired(next, params.grid_w as int)
            &&& extends(next, draft.roads)
            &&& forall|i: int, j: int|
                0 <= i < params.grid_w && 0 <= j < y ==> #[trigger] cell_kept(
                    next,
                    sites,
                    params,
                    i,
                    j,
                )
            &&& params.prune_prob == 0 && params.grid_w > 0 && params.grid_h > 0 ==> next.len()
                == draft.roads.len() + 2 * (y * (params.grid_w - 1)) + 2 * (params.grid_w * inner(
                y,
                params.grid_h as int,
            ))
        }),
    decreases y,
{
    let next = plan::with_rows(draft, sites, params, y);
    let w = params.grid_w as int;
    if y <= 0 {
        assert(draft.roads.subrange(0, draft.roads.len() as int) =~= draft.roads);
        assert(w * 0 == 0);
        assert(0 * (w - 1) == 0);
    } else {
        lemma_with_rows(draft, sites, params, y - 1);
        let before = plan::with_rows(draft, sites, params, y - 1);
        lemma_with_row(before, sites, params, w, y - 1);
        lemma_extends_trans(next.roads, before.roads, draft.roads);
        assert forall|i: int, j: int| 0 <= i < w && 0 <= j < y implies #[trigger] cell_kept(
            next.roads,
            sites,
            params,
            i,
            j,
        ) by {
            if j < y - 1 {
                lemma_kept_extends(next.roads, before.roads, sites, params, i, j);
            }
        }
        assert((y - 1) * (w - 1) + (w - 1) == y * (w - 1)) by (nonlinear_arith);
        assert(w * (y - 1) + w == w * y) by (nonlinear_arith);
    }
}

proof fn lemma_with_shortcuts_from(
    draft: Draft,
    sites: Seq<Site>,
    params: ParamsModel,
    a: int,
    b: int,
)
    requires
        sound(draft.roads, sites),
        0 <= a < sites.len(),
        0 <= b <= sites.len(),
        sites.len() == plan::size(params) <= usize::MAX,
    ensures
        ({
            let next = plan::with_shortcuts_from(draft, sites, params, a, b).roads;
            &&& sound(next, sites)
            &&& extends(next, draft.roads)
            &&& params.extra_road_prob == 0 ==> next == draft.roads
        }),
    decreases b,
{
    assert(draft.roads.subrange(0, draft.roads.len() as int) =~= draft.roads);
    if b > 0 {
        lemma_with_shortcuts_from(draft, sites, params, a, b - 1);
        let before = plan::with_shortcuts_from(draft, sites, params, a, b - 1);
        if a != b - 1 {
            let chance = plan::shortcut_chance(sites[a].zone_weight, params);
            let drawn = Draft {
                roads: before.roads,
                words: random::after_chance(before.words, chance),
            };
            if random::hits(before.words, chance) {
                lemma_with_road(drawn, sites, params, a, b - 1);
                let next = plan::with_road(drawn, sites, params, a, b - 1);
                assert(next.roads.subrange(0, before.roads.len() as int) =~= before.roads) by {
                    assert(next.roads.drop_last() =~= next.roads.subrange(
                        0,
                        before.roads.len() as int,
                    ));
                }
                lemma_extends_trans(next.roads, before.roads, draft.roads);
                if params.extra_road_prob == 0 {
                    lemma_no_shortcut(sites[a].zone_weight, params);
                }
            }
        }
    }
}

/// Without a shortcut probability no intersection has one.
proof fn lemma_no_shortcut(weight: u64, params: ParamsModel)
    requires
        params.extra_road_prob == 0,
        plan::size(params) > 0,
    ensures
        plan::shortcut_chance(weight, params) == 0,
{
    let scale = crate::city::SHORTCUT_BASE + crate::city::SHORTCUT_GAIN * weight / ONE as int;
    let divisor = ONE * plan::size(params);
    assert(0 * scale == 0) by (nonlinear_arith);
    assert(divisor > 0) by (nonlinear_arith)
        requires
            divisor == ONE * plan::size(params),
            plan::size(params) > 0,
            ONE > 0,
    ;
    vstd::arithmetic::div_mod::lemma_div_of0(divisor);
}

proof fn lemma_with_shortcuts(draft: Draft, sites: Seq<Site>, params: ParamsModel, a: int)
    requires
        sound(draft.roads, sites),
        0 <= a <= sites.len(),
        sites.len() == plan::size(params) <= usize::MAX,
    ensures
        ({
            let next = plan::with_shortcuts(draft, sites, params, a).roads;
            &&& sound(next, sites)
            &&& extends(next, draft.roads)
            &&& params.extra_road_prob == 0 ==> next == draft.roads
        }),
    decreases a,
{
    assert(draft.roads.subrange(0, draft.roads.len() as int) =~= draft.roads);
    if a > 0 {
        lemma_with_shortcuts(draft, sites, params, a - 1);
        let before = plan::with_shortcuts(draft, sites, params, a - 1);
        lemma_with_shortcuts_from(before, sites, params, a - 1, plan::size(params));
        let next = plan::with_shortcuts(draft, sites, params, a);
        lemma_extends_trans(next.roads, before.roads, draft.roads);
    }
}

/// The grid part of the roads of a city, as the grid law sees it.
pub open spec fn grid_roads(seed: u64, params: ParamsModel) -> Seq<Road> {
    let (hubs, words) = plan::hubs(random::seeded(seed), params);
    plan::grid(params, hubs, words).roads
}

/// The sites of the city of a seed.
pub open spec fn city_sites(seed: u64, params: ParamsModel) -> Seq<Site> {
    plan::sites(params, plan::hubs(random::seeded(seed), params).0)
}

proof fn lemma_city(seed: u64, params: ParamsModel)
    requires
        params.valid(),
    ensures
        city_sites(seed, params).len() == plan::size(params),
        sound(grid_roads(seed, params), city_sites(seed, params)),
        paired(grid_roads(seed, params), params.grid_w as int),
        forall|x: int, y: int|
            0 <= x < params.grid_w && 0 <= y < params.grid_h ==> #[trigger] cell_kept(
                grid_roads(seed, params),
                city_sites(seed, params),
                params,
                x,
                y,
            ),
        params.prune_prob == 0 && params.grid_w > 0 && params.grid_h > 0 ==> grid_roads(
            seed,
            params,
        ).len() == 2 * (params.grid_h * (params.grid_w - 1)) + 2 * (params.grid_w * (params.grid_h
            - 1)),
        sound(plan::city(seed, params).roads, city_sites(seed, params)),
        extends(plan::city(seed, params).roads, grid_roads(seed, params)),
        params.extra_road_prob == 0 || plan::size(params) <= 1 ==> plan::city(seed, params).roads
            == grid_roads(seed, params),
{
    let (hubs, words) = plan::hubs(random::seeded(seed), params);
    let sites = plan::sites(params, hubs);
    let start = Draft { roads: Seq::empty(), words };
    assert(0 <= plan::size(params)) by (nonlinear_arith)
        requires
            plan::size(params) == params.grid_w * params.grid_h,
    ;
    lemma_with_rows(start, sites, params, params.grid_h as int);
    let laid = plan::grid(params, hubs, words);
    assert(laid.roads.subrange(0, laid.roads.len() as int) =~= laid.roads);
    if plan::size(params) > 1 {
        lemma_with_shortcuts(laid, sites, params, plan::size(params));
    }
}

pub proof fn lemma_outgoing(roads: Seq<Road>, node: int)
    requires
        roads.len() <= usize::MAX,
    ensures
        ({
            let list = plan::outgoing(roads, node);
            &&& forall|i: int|
                0 <= i < list.len() ==> (#[trigger] list[i]) < roads.len()
                    && roads[list[i] as int].from == node
            &&& forall|i: int, j: int| 0 <= i < j < list.len() ==> list[i] < list[j]
            &&& forall|r: int|
                0 <= r < roads.len() && (#[trigger] roads[r]).from == node ==> list.contains(
                    r as usize,
                )
        }),
    decreases roads.len(),
{
    if roads.len() > 0 {
        let part = roads.drop_last();
        let rest = plan::outgoing(part, node);
        let list = plan::outgoing(roads, node);
        lemma_outgoing(part, node);
        assert forall|r: int|
            0 <= r < roads.len() && (#[trigger] roads[r]).from == node implies list.contains(
            r as usize,
        ) by {
            if r < part.len() {
                assert(part[r] == roads[r]);
                let i = choose|i: int| 0 <= i < rest.len() && rest[i] == r as usize;
                assert(list[i] == r as usize);
            } else {
                assert(list.last() == r as usize);
            }
        }
        assert forall|i: int| 0 <= i < list.len() implies (#[trigger] list[i]) < roads.len()
            && roads[list[i] as int].from == node by {
            if i < rest.len() {
                assert(rest[i] == list[i]);
                assert(part[rest[i] as int] == roads[rest[i] as int]);
            }
        }
        assert forall|i: int, j: int| 0 <= i < j < list.len() implies list[i] < list[j] by {
            if j < rest.len() {
                assert(rest[i] < rest[j]);
            } else {
                assert(rest[i] == list[i]);
            }
        }
    }
}

proof fn lemma_incoming(roads: Seq<Road>, node: int)
    requires
        roads.len() <= usize::MAX,
    ensures
        ({
            let list = plan::incoming(roads, node);
            &&& forall|i: int|
                0 <= i < list.len() ==> (#[trigger] list[i]) < roads.len()
                    && roads[list[i] as int].to == node
            &&& forall|i: int, j: int| 0 <= i < j < list.len() ==> list[i] < list[j]
            &&& forall|r: int|
                0 <= r < roads.len() && (#[trigger] roads[r]).to == node ==> list.contains(
                    r as usize,
                )
        }),
    decreases roads.len(),
{
    if roads.len() > 0 {
        let part = roads.drop_last();
        let rest = plan::incoming(part, node);
        let list = plan::incoming(roads, node);
        lemma_incoming(part, node);
        assert forall|r: int|
            0 <= r < roads.len() && (#[trigger] roads[r]).to == node implies list.contains(
            r as usize,
        ) by {
            if r < part.len() {
                assert(part[r] == roads[r]);
                let i = choose|i: int| 0 <= i < rest.len() && rest[i] == r as usize;
                assert(list[i] == r as usize);
            } else {
                assert(list.last() == r as usize);
            }
        }
        assert forall|i: int| 0 <= i < list.len() implies (#[trigger] list[i]) < roads.len()
            && roads[list[i] as int].to == node by {
            if i < rest.len() {
                assert(rest[i] == list[i]);
                assert(part[rest[i] as int] == roads[rest[i] as int]);
            }
        }
        assert forall|i: int, j: int| 0 <= i < j < list.len() implies list[i] < list[j] by {
            if j < rest.len() {
                assert(rest[i] < rest[j]);
            } else {
                assert(rest[i] == list[i]);
            }
        }
    }
}

/// The same seed and parameters give the same city.
pub proof fn law_same_seed_same_city(a: City, b: City, seed: u64, params: ParamsModel)
    requires
        a@ == plan::city(seed, params),
        b@ == plan::city(seed, params),
    ensures
        a@ == b@,
{
}

/// A generated city is well formed: everything is numbered in order, the lists
/// of each intersection hold exactly its roads, and each road is sound.
pub proof fn law_city_is_well_formed(city: City, seed: u64, params: ParamsModel)
    requires
        params.valid(),
        city@ == plan::city(seed, params),
    ensures
        city@.wf(),
        city@.sites() == city_sites(seed, params),
        city@.intersections.len() == plan::size(params),
{
    lemma_city(seed, params);
    let sites = city_sites(seed, params);
    assert(city@.sites() =~= sites);
    assert(city.roads.len() <= usize::MAX);
    assert(city@.roads == city.roads@);
    assert(city.intersections.len() <= usize::MAX);
    assert(city@.intersections.len() == city.intersections@.len());
    assert forall|i: int|
        #![trigger city@.intersections[i]]
        0 <= i < city@.intersections.len() implies city@.intersections[i].zone_weight
        <= ONE by {
        assert(city@.intersections[i].zone_weight == sites[i].zone_weight);
    }
}

/// An intersection's outgoing list holds exactly the roads that start at it,
/// and its incoming list exactly those that end at it, in ascending order.
pub proof fn law_lists_hold_exactly_the_roads(city: CityModel, node: int)
    requires
        city.wf(),
        0 <= node < city.intersections.len(),
    ensures
        forall|r: usize|
            city.intersections[node].outgoing.contains(r) <==> r < city.roads.len()
                && city.roads[r as int].from == node,
        forall|r: usize|
            city.intersections[node].incoming.contains(r) <==> r < city.roads.len()
                && city.roads[r as int].to == node,
        forall|i: int, j: int|
            0 <= i < j < city.intersections[node].outgoing.len()
                ==> city.intersections[node].outgoing[i] < city.intersections[node].outgoing[j],
        forall|i: int, j: int|
            0 <= i < j < city.intersections[node].incoming.len()
                ==> city.intersections[node].incoming[i] < city.intersections[node].incoming[j],
{
    lemma_outgoing(city.roads, node);
    lemma_incoming(city.roads, node);
    assert forall|r: usize|
        r < city.roads.len() && city.roads[r as int].from
            == node implies city.intersections[node].outgoing.contains(r) by {
        assert(r as int as usize == r);
    }
    assert forall|r: usize|
        r < city.roads.len() && city.roads[r as int].to
            == node implies city.intersections[node].incoming.contains(r) by {
        assert(r as int as usize == r);
    }
}

/// The grid roads of a city come first, in pairs: each road is followed by the
/// road that leads back. Where there are no shortcuts they are all the roads.
pub proof fn law_grid_roads_are_bidirectional(seed: u64, params: ParamsModel)
    requires
        params.valid(),
    ensures
        extends(plan::city(seed, params).roads, grid_roads(seed, params)),
        paired(grid_roads(seed, params), params.grid_w as int),
        params.extra_road_prob == 0 || plan::size(params) <= 1 ==> plan::city(seed, params).roads
            == grid_roads(seed, params),
{
    lemma_city(seed, params);
}

/// Where no edge is left out and no shortcut is added, there is a road each
/// way for each edge of the grid.
pub proof fn law_full_grid_road_count(seed: u64, params: ParamsModel)
    requires
        params.valid(),
        params.grid_w > 0,
        params.grid_h > 0,
        params.prune_prob == 0,
        params.extra_road_prob == 0,
    ensures
        plan::city(seed, params).roads.len() == 2 * (params.grid_h * (params.grid_w - 1)) + 2 * (
        params.grid_w * (params.grid_h - 1)),
{
    lemma_city(seed, params);
}

/// The edges of the grid that can not be left out are there, in both
/// directions: the first and the last edge of each row and column, the first row
/// and column, every edge outside the outskirts, and every edge at all where the
/// pruning probability is 0. Where another edge is left out, the one before it is
/// there, and there is a way round it.
pub proof fn law_fixed_edges_stay(seed: u64, params: ParamsModel, x: int, y: int)
    requires
        params.valid(),
        0 <= x < params.grid_w,
        0 <= y < params.grid_h,
    ensures
        cell_kept(plan::city(seed, params).roads, city_sites(seed, params), params, x, y),
{
    lemma_city(seed, params);
    assert(cell_kept(grid_roads(seed, params), city_sites(seed, params), params, x, y));
    lemma_kept_extends(
        plan::city(seed, params).roads,
        grid_roads(seed, params),
        city_sites(seed, params),
        params,
        x,
        y,
    );
}

/// Whether the intersection at column `x` of row `y` has a road each way to its
/// left or right neighbour.
pub open spec fn joined_in_row(roads: Seq<Road>, params: ParamsModel, x: int, y: int) -> bool {
    let id = y * params.grid_w + x;
    ||| 0 < x && joined(roads, id - 1, id)
    ||| x + 1 < params.grid_w && joined(roads, id, id + 1)
}

/// Whether the intersection at column `x` of row `y` has a road each way to its
/// upper or lower neighbour.
pub open spec fn joined_in_column(roads: Seq<Road>, params: ParamsModel, x: int, y: int) -> bool {
    let id = y * params.grid_w + x;
    ||| 0 < y && joined(roads, id - params.grid_w, id)
    ||| y + 1 < params.grid_h && joined(roads, id, id + params.grid_w)
}

/// No intersection is pruned below degree 1 along an axis of the grid: where it
/// has a neighbour in its row, it keeps a road each way to one of them, and where
/// it has one in its column, likewise.
pub proof fn law_each_axis_keeps_an_edge(seed: u64, params: ParamsModel, x: int, y: int)
    requires
        params.valid(),
        0 <= x < params.grid_w,
        0 <= y < params.grid_h,
    ensures
        params.grid_w >= 2 ==> joined_in_row(plan::city(seed, params).roads, params, x, y),
        params.grid_h >= 2 ==> joined_in_column(plan::city(seed, params).roads, params, x, y),
{
    let w = params.grid_w as int;
    law_fixed_edges_stay(seed, params, x, y);
    if x + 1 == w && w >= 2 {
        law_fixed_edges_stay(seed, params, x - 1, y);
    }
    if y + 1 == params.grid_h && params.grid_h >= 2 {
        assert((y - 1) * w == y * w - w) by (nonlinear_arith);
        law_fixed_edges_stay(seed, params, x, y - 1);
    }
}

/// An intersection that is not alone keeps a road that leads away and a road
/// that leads to it.
pub proof fn law_connected_to_a_neighbour(
    city: City,
    seed: u64,
    params: ParamsModel,
    x: int,
    y: int,
)
    requires
        params.valid(),
        city@ == plan::city(seed, params),
        0 <= x < params.grid_w,
        0 <= y < params.grid_h,
        plan::size(params) > 1,
    ensures
        city@.intersections[y * params.grid_w + x].outgoing.len() > 0,
        city@.intersections[y * params.grid_w + x].incoming.len() > 0,
{
    let w = params.grid_w as int;
    let h = params.grid_h as int;
    let id = y * w + x;
    law_city_is_well_formed(city, seed, params);
    crate::city::lemma_row_fits(w, h, y);
    law_each_axis_keeps_an_edge(seed, params, x, y);
    assert(w >= 2 || h >= 2) by (nonlinear_arith)
        requires
            w * h > 1,
            0 < w,
            0 < h,
    ;
    if 0 < x && joined(city@.roads, id - 1, id) {
        lemma_joined_lists(city@, id - 1, id);
    } else if x + 1 < w && joined(city@.roads, id, id + 1) {
        lemma_joined_lists(city@, id, id + 1);
    } else if 0 < y && joined(city@.roads, id - w, id) {
        lemma_joined_lists(city@, id - w, id);
    } else {
        lemma_joined_lists(city@, id, id + w);
    }
}

proof fn lemma_joined_lists(city: CityModel, a: int, b: int)
    requires
        city.wf(),
        joined(city.roads, a, b),
        0 <= a < city.intersections.len(),
        0 <= b < city.intersections.len(),
    ensures
        city.intersections[a].outgoing.len() > 0,
        city.intersections[a].incoming.len() > 0,
        city.intersections[b].outgoing.len() > 0,
        city.intersections[b].incoming.len() > 0,
{
    law_lists_hold_exactly_the_roads(city, a);
    law_lists_hold_exactly_the_roads(city, b);
    let k = choose|k: int| edge_at(city.roads, k, a, b);
    let there = k as usize;
    let back = (k + 1) as usize;
    assert(city.intersections[a].outgoing.contains(there));
    assert(city.intersections[b].incoming.contains(there));
    assert(city.intersections[b].outgoing.contains(back));
    assert(city.intersections[a].incoming.contains(back));
}

/// The class of a road follows the geography: it is local exactly where neither
/// end is close to a hub and the road is not central. So the mean weight of the
/// ends of a local road is at most `CENTRAL_WEIGHT`, and that of any other road
/// more than half of `HUB_WEIGHT`.
pub proof fn law_classes_follow_the_hubs(city: CityModel, r: int)
    requires
        city.wf(),
        0 <= r < city.roads.len(),
    ensures
        ({
            let from_weight = city.intersections[city.roads[r].from as int].zone_weight;
            let to_weight = city.intersections[city.roads[r].to as int].zone_weight;
            &&& city.roads[r].class == RoadClass::Local <==> plan::local_street(
                from_weight,
                to_weight,
            )
            &&& city.roads[r].class != RoadClass::Local ==> from_weight + to_weight > HUB_WEIGHT
        }),
{
    assert(plan::sound_road(city.roads[r], r, city.sites()));
    let from = city.roads[r].from as int;
    let to = city.roads[r].to as int;
    assert(city.sites()[from].zone_weight == city.intersections[from].zone_weight);
    assert(city.sites()[to].zone_weight == city.intersections[to].zone_weight);
}

/// With no hubs asked for, the one hub is the middle of the grid.
pub proof fn law_no_hubs_means_one_in_the_middle(seed: u64, params: ParamsModel)
    requires
        params.num_hubs == 0,
    ensures
        plan::city(seed, params).hub_centers == seq![
            ((params.grid_w / 2) as i32, (params.grid_h / 2) as i32),
        ],
{
}

/// Otherwise there are as many hubs as asked for, all of them on the grid (or
/// at the origin, where the grid is empty).
pub proof fn law_hubs_lie_on_the_grid(seed: u64, params: ParamsModel)
    requires
        params.valid(),
        params.num_hubs > 0,
    ensures
        ({
            let hubs = plan::city(seed, params).hub_centers;
            &&& hubs.len() == params.num_hubs
            &&& forall|k: int|
                0 <= k < hubs.len() ==> {
                    &&& 0 <= (#[trigger] hubs[k]).0
                    &&& 0 <= hubs[k].1
                    &&& hubs[k].0 < params.grid_w || hubs[k].0 == 0
                    &&& hubs[k].1 < params.grid_h || hubs[k].1 == 0
                }
        }),
{
    lemma_drawn_hubs(random::seeded(seed), params, params.num_hubs as nat);
}

proof fn lemma_drawn_hubs(words: Map<nat, u32>, params: ParamsModel, count: nat)
    requires
        params.valid(),
    ensures
        ({
            let hubs = plan::drawn_hubs(words, params, count).0;
            &&& hubs.len() == count
            &&& forall|k: int|
                0 <= k < hubs.len() ==> {
                    &&& 0 <= (#[trigger] hubs[k]).0
                    &&& 0 <= hubs[k].1
                    &&& hubs[k].0 < params.grid_w || hubs[k].0 == 0
                    &&& hubs[k].1 < params.grid_h || hubs[k].1 == 0
                }
        }),
    decreases count,
{
    if count > 0 {
        lemma_drawn_hubs(words, params, (count - 1) as nat);
    }
}

/// A zone weight is at most `ONE`; on top of a hub it is `ONE`.
pub proof fn law_weight_peaks_at_hubs(
    falloff: u64,
    hubs: Seq<(i32, i32)>,
    x: i32,
    y: i32,
)
    ensures
        plan::zone_weight(falloff, hubs, x, y) <= ONE,
        hubs.contains((x, y)) ==> plan::zone_weight(falloff, hubs, x, y) == ONE,
{
    if hubs.contains((x, y)) {
        lemma_influence(falloff, 0, 0);
        let k = choose|k: int| 0 <= k < hubs.len() && hubs[k] == (x, y);
        lemma_strongest(falloff, hubs, x, y);
        assert(plan::square_distance(x, y, hubs[k]) == 0) by {
            let dx = x - hubs[k].0;
            let dy = y - hubs[k].1;
            assert(dx * dx + dy * dy == 0) by (nonlinear_arith)
                requires
                    dx == 0,
                    dy == 0,
            ;
        }
    }
}

/// A place that is no farther from any hub weighs no less.
pub proof fn law_weight_falls_off(
    falloff: u64,
    hubs: Seq<(i32, i32)>,
    near: (i32, i32),
    far: (i32, i32),
)
    requires
        forall|k: int|
            0 <= k < hubs.len() ==> plan::square_distance(near.0, near.1, #[trigger] hubs[k])
                <= plan::square_distance(far.0, far.1, hubs[k]),
    ensures
        plan::zone_weight(falloff, hubs, far.0, far.1) <= plan::zone_weight(
            falloff,
            hubs,
            near.0,
            near.1,
        ),
{
    lemma_strongest_falls(falloff, hubs, near, far);
}

/// An influence is `ONE` at a hub, never more, and never grows with the distance.
pub proof fn lemma_influence(falloff: u64, near: int, far: int)
    requires
        0 <= near <= far,
    ensures
        plan::influence(falloff, 0) == ONE,
        plan::influence(falloff, near) <= ONE,
        plan::influence(falloff, far) <= plan::influence(falloff, near),
{
    let reach = if falloff > MIN_FALLOFF {
        falloff as int
    } else {
        MIN_FALLOFF as int
    };
    let a = decay::distance(near as nat) * ONE;
    let b = decay::distance(far as nat) * ONE;
    decay::lemma_distance(near as nat, far as nat);
    vstd::arithmetic::div_mod::lemma_div_is_ordered(a, b, reach);
    vstd::arithmetic::div_mod::lemma_div_pos_is_pos(a, reach);
    decay::lemma_decay_bound((a / reach) as nat);
    decay::lemma_decay_bound((b / reach) as nat);
    decay::lemma_decay_order((a / reach) as nat, (b / reach) as nat);
    decay::lemma_decay_zero();
    assert(0int / reach == 0) by (nonlinear_arith)
        requires
            reach > 0,
    ;
}

proof fn lemma_strongest(falloff: u64, hubs: Seq<(i32, i32)>, x: i32, y: i32)
    ensures
        forall|k: int|
            0 <= k < hubs.len() ==> plan::influence(
                falloff,
                plan::square_distance(x, y, #[trigger] hubs[k]),
            ) <= plan::strongest(falloff, hubs, x, y),
    decreases hubs.len(),
{
    if hubs.len() > 0 {
        lemma_strongest(falloff, hubs.drop_last(), x, y);
        assert forall|k: int| 0 <= k < hubs.len() implies plan::influence(
            falloff,
            plan::square_distance(x, y, #[trigger] hubs[k]),
        ) <= plan::strongest(falloff, hubs, x, y) by {
            if k < hubs.len() - 1 {
                assert(hubs.drop_last()[k] == hubs[k]);
            }
        }
    }
}

proof fn lemma_strongest_falls(
    falloff: u64,
    hubs: Seq<(i32, i32)>,
    near: (i32, i32),
    far: (i32, i32),
)
    requires
        forall|k: int|
            0 <= k < hubs.len() ==> plan::square_distance(near.0, near.1, #[trigger] hubs[k])
                <= plan::square_distance(far.0, far.1, hubs[k]),
    ensures
        plan::strongest(falloff, hubs, far.0, far.1) <= plan::strongest(
            falloff,
            hubs,
            near.0,
            near.1,
        ),
    decreases hubs.len(),
{
    if hubs.len() > 0 {
        let rest = hubs.drop_last();
        assert forall|k: int| 0 <= k < rest.len() implies plan::square_distance(
            near.0,
            near.1,
            #[trigger] rest[k],
        ) <= plan::square_distance(far.0, far.1, rest[k]) by {
            assert(rest[k] == hubs[k]);
        }
        lemma_strongest_falls(falloff, rest, near, far);
        let hub = hubs[hubs.len() - 1];
        lemma_square(near.0, near.1, hub);
        lemma_influence(
            falloff,
            plan::square_distance(near.0, near.1, hub),
            plan::square_distance(far.0, far.1, hub),
        );
    }
}

pub proof fn lemma_square(x: i32, y: i32, hub: (i32, i32))
    ensures
        0 <= plan::square_distance(x, y, hub),
{
    let dx = x - hub.0;
    let dy = y - hub.1;
    assert(0 <= dx * dx) by (nonlinear_arith);
    assert(0 <= dy * dy) by (nonlinear_arith);
}

/// Whether roads lead along a path, from each of its intersections to the next.
pub open spec fn leads_along(roads: Seq<Road>, path: Seq<int>) -> bool {
    forall|i: int, j: int|
        #![trigger path[i], path[j]]
        0 <= i && i + 1 == j && j < path.len() ==> plan::has_road(roads, path[i], path[j])
}

/// Whether roads lead from `a` to `b` along some path.
pub open spec fn reaches(roads: Seq<Road>, a: int, b: int) -> bool {
    exists|path: Seq<int>|
        path.len() > 0 && path[0] == a && path.last() == b && #[trigger] leads_along(roads, path)
}

proof fn lemma_reaches_on(roads: Seq<Road>, a: int, b: int, c: int)
    requires
        reaches(roads, a, b),
        plan::has_road(roads, b, c),
    ensures
        reaches(roads, a, c),
{
    let path = choose|path: Seq<int>|
        path.len() > 0 && path[0] == a && path.last() == b && #[trigger] leads_along(roads, path);
    let longer = path.push(c);
    assert forall|i: int, j: int|
        #![trigger longer[i], longer[j]]
        0 <= i && i + 1 == j && j < longer.len() implies plan::has_road(
        roads,
        longer[i],
        longer[j],
    ) by {
        if j < path.len() {
            assert(longer[i] == path[i] && longer[j] == path[j]);
        }
    }
    assert(leads_along(roads, longer));
}

proof fn lemma_reaches_both(roads: Seq<Road>, a: int, b: int, c: int)
    requires
        reaches(roads, a, b),
        reaches(roads, b, c),
    ensures
        reaches(roads, a, c),
{
    let path = choose|path: Seq<int>|
        path.len() > 0 && path[0] == b && path.last() == c && #[trigger] leads_along(roads, path);
    lemma_reaches_along(roads, a, path, path.len() - 1);
}

proof fn lemma_reaches_along(roads: Seq<Road>, a: int, path: Seq<int>, k: int)
    requires
        0 <= k < path.len(),
        reaches(roads, a, path[0]),
        leads_along(roads, path),
    ensures
        reaches(roads, a, path[k]),
    decreases k,
{
    if k > 0 {
        lemma_reaches_along(roads, a, path, k - 1);
        lemma_reaches_on(roads, a, path[k - 1], path[k]);
    }
}

proof fn lemma_joined_roads(roads: Seq<Road>, a: int, b: int)
    requires
        joined(roads, a, b),
    ensures
        plan::has_road(roads, a, b),
        plan::has_road(roads, b, a),
{
    let k = choose|k: int| edge_at(roads, k, a, b);
    assert(roads[k].from == a && roads[k + 1].from == b);
}

/// Roads lead from `a` to `b` and back.
spec fn connected(roads: Seq<Road>, a: int, b: int) -> bool {
    reaches(roads, a, b) && reaches(roads, b, a)
}

proof fn lemma_connected_same(roads: Seq<Road>, a: int)
    ensures
        connected(roads, a, a),
{
    let path = seq![a];
    assert(leads_along(roads, path));
}

proof fn lemma_connected_both(roads: Seq<Road>, a: int, b: int, c: int)
    requires
        connected(roads, a, b),
        connected(roads, b, c),
    ensures
        connected(roads, a, c),
        connected(roads, c, a),
{
    lemma_reaches_both(roads, a, b, c);
    lemma_reaches_both(roads, c, b, a);
}

proof fn lemma_joined_connected(roads: Seq<Road>, a: int, b: int)
    requires
        joined(roads, a, b),
    ensures
        connected(roads, a, b),
        connected(roads, b, a),
{
    lemma_joined_roads(roads, a, b);
    lemma_connected_same(roads, a);
    lemma_connected_same(roads, b);
    lemma_reaches_on(roads, a, a, b);
    lemma_reaches_on(roads, b, b, a);
}

/// The ends of three edges in a row are connected.
proof fn lemma_way_round(roads: Seq<Road>, a: int, b: int, c: int, d: int)
    requires
        connected(roads, a, b),
        connected(roads, b, c),
        connected(roads, c, d),
    ensures
        connected(roads, a, d),
{
    lemma_connected_both(roads, a, b, c);
    lemma_connected_both(roads, a, c, d);
}

/// The ends of the edge to the right of column `x` in row `y` are connected,
/// whether it is there or not.
proof fn lemma_right_connected(seed: u64, params: ParamsModel, x: int, y: int)
    requires
        params.valid(),
        0 <= x,
        x + 1 < params.grid_w,
        0 <= y < params.grid_h,
    ensures
        connected(
            plan::city(seed, params).roads,
            y * params.grid_w + x,
            y * params.grid_w + x + 1,
        ),
{
    let roads = plan::city(seed, params).roads;
    let w = params.grid_w as int;
    let id = y * w + x;
    law_fixed_edges_stay(seed, params, x, y);
    if joined(roads, id, id + 1) {
        lemma_joined_connected(roads, id, id + 1);
    } else {
        lemma_joined_connected(roads, id - w, id);
        lemma_joined_connected(roads, id - w, id + 1 - w);
        lemma_joined_connected(roads, id + 1 - w, id + 1);
        lemma_way_round(roads, id, id - w, id + 1 - w, id + 1);
    }
}

/// The ends of the edge down from column `x` in row `y` are connected, whether it
/// is there or not.
proof fn lemma_down_connected(seed: u64, params: ParamsModel, x: int, y: int)
    requires
        params.valid(),
        0 <= x < params.grid_w,
        0 <= y,
        y + 1 < params.grid_h,
    ensures
        connected(
            plan::city(seed, params).roads,
            y * params.grid_w + x,
            (y + 1) * params.grid_w + x,
        ),
{
    let roads = plan::city(seed, params).roads;
    let w = params.grid_w as int;
    let id = y * w + x;
    assert((y + 1) * w == y * w + w) by (nonlinear_arith);
    law_fixed_edges_stay(seed, params, x, y);
    if joined(roads, id, id + w) {
        lemma_joined_connected(roads, id, id + w);
    } else {
        // The lower edge of the block is there: it is redundant only with this one.
        law_fixed_edges_stay(seed, params, x - 1, y + 1);
        assert(joined(roads, id - 1 + w, id + w));
        lemma_joined_connected(roads, id - 1, id);
        lemma_joined_connected(roads, id - 1, id - 1 + w);
        lemma_joined_connected(roads, id - 1 + w, id + w);
        lemma_way_round(roads, id, id - 1, id - 1 + w, id + w);
    }
}

/// The network is connected, whatever edges are left out: roads lead from every
/// intersection to every other.
pub proof fn law_network_is_connected(
    seed: u64,
    params: ParamsModel,
    from: (int, int),
    to: (int, int),
)
    requires
        params.valid(),
        0 <= from.0 < params.grid_w,
        0 <= from.1 < params.grid_h,
        0 <= to.0 < params.grid_w,
        0 <= to.1 < params.grid_h,
    ensures
        reaches(
            plan::city(seed, params).roads,
            from.1 * params.grid_w + from.0,
            to.1 * params.grid_w + to.0,
        ),
{
    let roads = plan::city(seed, params).roads;
    lemma_corner(seed, params, from.0, from.1);
    lemma_corner(seed, params, to.0, to.1);
    lemma_connected_both(
        roads,
        from.1 * params.grid_w + from.0,
        0,
        to.1 * params.grid_w + to.0,
    );
}

/// Every intersection is connected to the first one.
proof fn lemma_corner(seed: u64, params: ParamsModel, x: int, y: int)
    requires
        params.valid(),
        0 <= x < params.grid_w,
        0 <= y < params.grid_h,
    ensures
        connected(plan::city(seed, params).roads, 0, y * params.grid_w + x),
        connected(plan::city(seed, params).roads, y * params.grid_w + x, 0),
    decreases x + y,
{
    let roads = plan::city(seed, params).roads;
    let w = params.grid_w as int;
    let id = y * w + x;
    if x > 0 {
        lemma_corner(seed, params, x - 1, y);
        lemma_right_connected(seed, params, x - 1, y);
        lemma_connected_both(roads, 0, id - 1, id);
    } else if y > 0 {
        lemma_corner(seed, params, x, y - 1);
        lemma_down_connected(seed, params, x, y - 1);
        lemma_connected_both(roads, 0, (y - 1) * w + x, id);
    } else {
        assert(id == 0) by (nonlinear_arith)
            requires
                id == y * w + x,
                x == 0,
                y == 0,
        ;
        lemma_connected_same(roads, 0);
    }
}

/// An intersection is no less likely to get a shortcut than one of a smaller
/// weight: its probability grows from `SHORTCUT_BASE` times the even share of
/// `extra_road_prob` at weight 0 to `SHORTCUT_BASE + SHORTCUT_GAIN` times that at
/// weight 1.
pub proof fn law_shortcuts_favour_hubs(params: ParamsModel, low: u64, high: u64)
    requires
        low <= high,
        plan::size(params) > 0,
    ensures
        plan::shortcut_chance(low, params) <= plan::shortcut_chance(high, params),
        plan::shortcut_chance(0, params) == params.extra_road_prob * SHORTCUT_BASE / (ONE
            * plan::size(params)),
        plan::shortcut_chance(ONE, params) == params.extra_road_prob * (SHORTCUT_BASE
            + SHORTCUT_GAIN) / (ONE * plan::size(params)),
{
    let prob = params.extra_road_prob as int;
    let low_scale = SHORTCUT_BASE + SHORTCUT_GAIN * low / ONE as int;
    let high_scale = SHORTCUT_BASE + SHORTCUT_GAIN * high / ONE as int;
    let size = plan::size(params);
    assert(prob * low_scale <= prob * high_scale) by (nonlinear_arith)
        requires
            0 <= prob,
            low_scale <= high_scale,
    ;
    vstd::arithmetic::div_mod::lemma_div_is_ordered(
        prob * low_scale,
        prob * high_scale,
        ONE * size,
    );
}

/// Of two roads of one class and jitter, the one whose ends weigh more is no
/// less busy.
pub proof fn law_dense_roads_are_busier(
    range: (i64, i64),
    quiet: (u64, u64),
    busy: (u64, u64),
    word: u32,
)
    requires
        range.0 <= range.1,
        quiet.0 + quiet.1 <= busy.0 + busy.1,
    ensures
        plan::intensity(range, quiet.0, quiet.1, word) <= plan::intensity(
            range,
            busy.0,
            busy.1,
            word,
        ),
{
    let width = range.1 - range.0;
    let low = quiet.0 + quiet.1;
    let high = busy.0 + busy.1;
    assert(width * low <= width * high) by (nonlinear_arith)
        requires
            0 <= width,
            low <= high,
    ;
    vstd::arithmetic::div_mod::lemma_div_is_ordered(width * low, width * high, 2 * ONE as int);
}

/// The probability that a road is arterial, 0 for a local one.
pub open spec fn arterial_odds(from_weight: u64, to_weight: u64, params: ParamsModel) -> int {
    match plan::arterial_chance(from_weight, to_weight, params) {
        Some(chance) => chance,
        None => 0,
    }
}

/// A road whose ends weigh more is no less likely to be arterial.
pub proof fn law_arterials_cluster_near_hubs(
    params: ParamsModel,
    low: (u64, u64),
    high: (u64, u64),
)
    requires
        low.0 <= high.0 <= ONE,
        low.1 <= high.1 <= ONE,
    ensures
        arterial_odds(low.0, low.1, params) <= arterial_odds(high.0, high.1, params),
{
    let prob = params.arterial_prob as int;
    let a = low.0 + low.1;
    let b = high.0 + high.1;
    let whole = 2 * ONE as int;
    assert(0 <= prob * a <= prob * b <= prob * whole) by (nonlinear_arith)
        requires
            0 <= prob,
            0 <= a <= b <= whole,
    ;
    vstd::arithmetic::div_mod::lemma_div_is_ordered(prob * a, prob * b, whole);
    vstd::arithmetic::div_mod::lemma_div_is_ordered(prob * a, prob * whole, whole);
    vstd::arithmetic::div_mod::lemma_div_is_ordered(0, prob * a, whole);
    vstd::arithmetic::div_mod::lemma_div_is_ordered(0, prob * b, whole);
    assert(prob * whole / whole == prob) by (nonlinear_arith)
        requires
            whole > 0,
    ;
}

/// Every arterial road holds more vehicles than every collector, and every
/// collector more than every local road.
pub proof fn law_capacity_follows_the_class(city: CityModel, r: int, s: int)
    requires
        city.wf(),
        0 <= r < city.roads.len(),
        0 <= s < city.roads.len(),
    ensures
        city.roads[r].class == RoadClass::Arterial && city.roads[s].class != RoadClass::Arterial
            ==> city.roads[r].capacity > city.roads[s].capacity,
        city.roads[r].class == RoadClass::Collector && city.roads[s].class == RoadClass::Local
            ==> city.roads[r].capacity > city.roads[s].capacity,
{
    assert(plan::sound_road(city.roads[r], r, city.sites()));
    assert(plan::sound_road(city.roads[s], s, city.sites()));
}

} // verus!
