//! Voronoi lattice: cells on the borders between seed regions become floor.
use rltk::RandomNumberGenerator;
use vstd::prelude::*;

use crate::common::xy_idx;
use crate::connectivity::{lemma_coords_idx, valid_idx};
use crate::level::{finalize_level, is_playable};
use crate::map::{col_of, idx_of, is_interior, row_of, Grid, TileType, MAP_COUNT, MAP_HEIGHT, MAP_WIDTH};
use crate::regions::{generate_voronoi_spawn_regions, regions_partition_floor};
use crate::rng::roll_die;

verus! {

/// Number of seed points scattered.
pub const N_SEEDS: usize = 64;

/// Draws of a seed point made at most, counting those that repeat an earlier one.
pub const MAX_SEED_DRAWS: u32 = 100000;

/// Squared Euclidean distance between two cells.
pub open spec fn dist_sq(x1: int, y1: int, x2: int, y2: int) -> int {
    (x1 - x2) * (x1 - x2) + (y1 - y2) * (y1 - y2)
}

/// A seed lies on the grid.
pub open spec fn seeds_on_grid(seeds: Seq<(i32, i32)>) -> bool {
    forall|s: int|
        #![trigger seeds[s]]
        0 <= s < seeds.len() ==> 0 <= seeds[s].0 < MAP_WIDTH && 0 <= seeds[s].1 < MAP_HEIGHT
}

/// Distance from `(x, y)` to seed `s`.
pub open spec fn seed_dist(seeds: Seq<(i32, i32)>, s: int, x: int, y: int) -> int {
    dist_sq(x, y, seeds[s].0 as int, seeds[s].1 as int)
}

/// Seed `s` is the nearest to `(x, y)`, the first of them where several are as near.
pub open spec fn is_nearest(seeds: Seq<(i32, i32)>, s: int, x: int, y: int) -> bool {
    &&& 0 <= s < seeds.len()
    &&& forall|t: int| 0 <= t < seeds.len() ==> #[trigger] seed_dist(seeds, t, x, y) >= seed_dist(seeds, s, x, y)
    &&& forall|t: int| 0 <= t < s ==> #[trigger] seed_dist(seeds, t, x, y) > seed_dist(seeds, s, x, y)
}

/// Squared distance between two cells of the grid.
fn distance_sq(x1: i32, y1: i32, x2: i32, y2: i32) -> (r: i32)
    requires
        0 <= x1 < MAP_WIDTH,
        0 <= y1 < MAP_HEIGHT,
        0 <= x2 < MAP_WIDTH,
        0 <= y2 < MAP_HEIGHT,
    ensures
        r as int == dist_sq(x1 as int, y1 as int, x2 as int, y2 as int),
{
    let dx = x1 - x2;
    let dy = y1 - y2;
    assert(dx * dx <= 6400) by (nonlinear_arith)
        requires
            -80 <= dx <= 80,
    ;
    assert(dy * dy <= 6400) by (nonlinear_arith)
        requires
            -80 <= dy <= 80,
    ;
    assert(dx * dx >= 0) by (nonlinear_arith);
    assert(dy * dy >= 0) by (nonlinear_arith);
    dx * dx + dy * dy
}

/// The seed nearest to `(x, y)`, the first of them where several are as near.
pub fn nearest_seed(seeds: &Vec<(i32, i32)>, x: i32, y: i32) -> (r: usize)
    requires
        seeds@.len() >= 1,
        seeds_on_grid(seeds@),
        0 <= x < MAP_WIDTH,
        0 <= y < MAP_HEIGHT,
    ensures
        is_nearest(seeds@, r as int, x as int, y as int),
{
    let mut best: usize = 0;
    let mut best_d = distance_sq(x, y, seeds[0].0, seeds[0].1);
    let mut s: usize = 1;
    while s < seeds.len()
        invariant
            1 <= s <= seeds@.len(),
            seeds_on_grid(seeds@),
            0 <= x < MAP_WIDTH,
            0 <= y < MAP_HEIGHT,
            best < s,
            best_d as int == seed_dist(seeds@, best as int, x as int, y as int),
            forall|t: int| 0 <= t < s ==> #[trigger] seed_dist(seeds@, t, x as int, y as int) >= best_d,
            forall|t: int| 0 <= t < best ==> #[trigger] seed_dist(seeds@, t, x as int, y as int) > best_d,
        decreases seeds@.len() - s,
    {
        let d = distance_sq(x, y, seeds[s].0, seeds[s].1);
        if d < best_d {
            best = s;
            best_d = d;
        }
        s = s + 1;
    }
    best
}

/// For every cell, the seed it belongs to.
pub fn voronoi_membership(seeds: &Vec<(i32, i32)>) -> (r: Vec<usize>)
    requires
        seeds@.len() >= 1,
        seeds_on_grid(seeds@),
    ensures
        r@.len() == MAP_COUNT,
        forall|i: int|
            #![trigger r@[i]]
            valid_idx(i) ==> is_nearest(seeds@, r@[i] as int, col_of(i), row_of(i)),
{
    let mut r: Vec<usize> = Vec::with_capacity(MAP_COUNT);
    let mut i: usize = 0;
    while i < MAP_COUNT
        invariant
            seeds@.len() >= 1,
            seeds_on_grid(seeds@),
            0 <= i <= MAP_COUNT,
            r@.len() == i,
            forall|k: int|
                #![trigger r@[k]]
                0 <= k < i ==> is_nearest(seeds@, r@[k] as int, col_of(k), row_of(k)),
        decreases MAP_COUNT - i,
    {
        let x = (i % 80) as i32;
        let y = (i / 80) as i32;
        let s = nearest_seed(seeds, x, y);
        r.push(s);
        i = i + 1;
    }
    r
}

/// 1 where the cell at `(x, y)` belongs to another seed than `s`, else 0.
pub open spec fn differs_at(m: Seq<usize>, s: usize, x: int, y: int) -> int {
    if m[idx_of(x, y)] != s {
        1
    } else {
        0
    }
}

/// Number of the four cardinal neighbours of cell `i` that belong to another seed.
pub open spec fn foreign_neighbors(m: Seq<usize>, i: int) -> int {
    let x = col_of(i);
    let y = row_of(i);
    differs_at(m, m[i], x - 1, y) + differs_at(m, m[i], x + 1, y) + differs_at(m, m[i], x, y - 1)
        + differs_at(m, m[i], x, y + 1)
}

/// A cell inside the ring with at least two cardinal neighbours of another seed lies
/// on a border of the lattice.
pub open spec fn on_border(m: Seq<usize>, i: int) -> bool {
    is_interior(col_of(i), row_of(i)) && foreign_neighbors(m, i) >= 2
}

/// Turns every border cell of the lattice into floor and leaves the rest alone.
pub fn carve_borders(map: &mut Grid, membership: &Vec<usize>)
    requires
        old(map).wf(),
        membership@.len() == MAP_COUNT,
    ensures
        crate::common::keeps_all_but_tiles(old(map), final(map)),
        forall|i: int|
            #![trigger final(map).tiles@[i]]
            valid_idx(i) ==> final(map).tiles@[i] == if on_border(membership@, i) {
                TileType::Floor
            } else {
                old(map).tiles@[i]
            },
{
    let mut i: usize = 0;
    while i < MAP_COUNT
        invariant
            crate::common::keeps_all_but_tiles(old(map), map),
            membership@.len() == MAP_COUNT,
            0 <= i <= MAP_COUNT,
            forall|k: int|
                #![trigger map.tiles@[k]]
                valid_idx(k) ==> map.tiles@[k] == if k < i && on_border(membership@, k) {
                    TileType::Floor
                } else {
                    old(map).tiles@[k]
                },
        decreases MAP_COUNT - i,
    {
        let x = i % 80;
        let y = i / 80;
        if 1 <= x && x < 79 && 1 <= y && y < 42 {
            proof {
                lemma_coords_idx(i as int);
            }
            let mine = membership[i];
            let mut n: u32 = 0;
            if membership[i - 1] != mine {
                n = n + 1;
            }
            if membership[i + 1] != mine {
                n = n + 1;
            }
            if membership[i - 80] != mine {
                n = n + 1;
            }
            if membership[i + 80] != mine {
                n = n + 1;
            }
            assert(n as int == foreign_neighbors(membership@, i as int));
            if n >= 2 {
                map.tiles.set(i, TileType::Floor);
            }
        }
        i = i + 1;
    }
}

/// Scatters up to `N_SEEDS` distinct seed points over columns `1..=79`, rows `1..=42`.
fn scatter_seeds(rng: &mut RandomNumberGenerator) -> (r: Vec<(i32, i32)>)
    ensures
        1 <= r@.len() <= N_SEEDS,
        seeds_on_grid(r@),
{
    let mut seeds: Vec<(i32, i32)> = Vec::new();
    let mut draws: u32 = 0;
    while seeds.len() < N_SEEDS && draws < MAX_SEED_DRAWS
        invariant
            seeds@.len() <= N_SEEDS,
            seeds_on_grid(seeds@),
            draws <= MAX_SEED_DRAWS,
            draws > 0 ==> seeds@.len() >= 1,
        decreases MAX_SEED_DRAWS - draws,
    {
        let vx = roll_die(rng, MAP_WIDTH - 1);
        let vy = roll_die(rng, MAP_HEIGHT - 1);
        let mut present = false;
        let mut s: usize = 0;
        while s < seeds.len()
            invariant
                0 <= s <= seeds@.len(),
                present ==> seeds@.len() >= 1,
            decreases seeds@.len() - s,
        {
            if seeds[s].0 == vx && seeds[s].1 == vy {
                present = true;
            }
            s = s + 1;
        }
        if !present {
            seeds.push((vx, vy));
        }
        draws = draws + 1;
    }
    seeds
}

/// Builds a lattice of floor along the borders between Voronoi regions.
pub struct VoronoiBuilder {
    pub map: Grid,
}

impl VoronoiBuilder {
    /// A builder for the given depth.
    pub fn new(new_depth: i32) -> (r: VoronoiBuilder)
        ensures
            r.map.wf(),
            r.map.depth == new_depth,
            forall|i: int| 0 <= i < MAP_COUNT ==> #[trigger] r.map.tiles@[i] == TileType::Wall,
    {
        VoronoiBuilder { map: Grid::new(new_depth) }
    }

    /// Scatters the seeds, assigns every cell to its nearest seed, turns the borders
    /// into floor, enters at the first floor cell walking left from the centre,
    /// finishes the level and groups its floor by noise key.
    pub fn build(self, rng: &mut RandomNumberGenerator, noise_keys: &Vec<i32>) -> (r: Grid)
        requires
            self.map.wf(),
            forall|i: int| 0 <= i < MAP_COUNT ==> #[trigger] self.map.tiles@[i] == TileType::Wall,
            noise_keys@.len() == MAP_COUNT,
        ensures
            is_playable(&r),
            regions_partition_floor(r.tiles@, r.regions@),
            r.depth == self.map.depth,
            r.upstairs.1 == 21,
            exists|seeds: Seq<(i32, i32)>, m: Seq<usize>|
                {
                    &&& 1 <= seeds.len() <= N_SEEDS
                    &&& seeds_on_grid(seeds)
                    &&& m.len() == MAP_COUNT
                    &&& forall|i: int| valid_idx(i) ==> is_nearest(seeds, #[trigger] m[i] as int, col_of(i), row_of(i))
                    &&& forall|i: int|
                        #![trigger r.tiles@[i]]
                        valid_idx(i) && r.tiles@[i] == TileType::Floor ==> on_border(m, i)
                },
    {
        let mut map = self.map;
        let seeds = scatter_seeds(rng);
        let membership = voronoi_membership(&seeds);
        carve_borders(&mut map, &membership);
        let ghost carved = map.tiles@;
        map.take_snapshot();
        let start_y: i32 = MAP_HEIGHT / 2;
        let mut start_x: i32 = MAP_WIDTH / 2;
        while start_x > 1 && map.tiles[xy_idx(start_x, start_y)] != TileType::Floor
            invariant
                map.wf(),
                map.tiles@ == carved,
                1 <= start_x <= 40,
                start_y == 21,
            decreases start_x,
        {
            start_x = start_x - 1;
        }
        finalize_level(&mut map, start_x, start_y, None);
        proof {
            assert forall|i: int|
                #![trigger map.tiles@[i]]
                valid_idx(i) && map.tiles@[i] == TileType::Floor implies on_border(membership@, i) by {
                let pr = crate::level::prepared(carved, idx_of(start_x as int, 21));
                assert(pr[i] == crate::level::prepared_tile(carved, idx_of(start_x as int, 21), i));
            }
            assert(forall|i: int| valid_idx(i) ==> is_nearest(seeds@, #[trigger] membership@[i] as int, col_of(i), row_of(i)));
        }
        map.take_snapshot();
        map.regions = generate_voronoi_spawn_regions(&map, noise_keys);
        map
    }
}

} // verus!
