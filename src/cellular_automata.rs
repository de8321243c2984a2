//! Cellular-automata caverns: random noise smoothed by a neighbour-count rule.
use rltk::RandomNumberGenerator;
use vstd::prelude::*;

use crate::common::xy_idx;
use crate::connectivity::{lemma_coords_idx, valid_idx};
use crate::level::{exit_is_most_distant, fallback_exit, finalize_level, is_playable};
use crate::map::{col_of, idx_of, is_interior, row_of, Grid, TileType, MAP_COUNT, MAP_HEIGHT, MAP_WIDTH};
use crate::regions::{generate_voronoi_spawn_regions, regions_partition_floor};
use crate::rng::roll_die;

verus! {

/// Number of smoothing passes.
pub const AUTOMATON_PASSES: u32 = 15;

/// 1 where the cell at `(x, y)` is wall, else 0.
pub open spec fn wall_at(tiles: Seq<TileType>, x: int, y: int) -> int {
    if tiles[idx_of(x, y)] == TileType::Wall {
        1
    } else {
        0
    }
}

/// Number of walls among the eight neighbours of cell `i`.
pub open spec fn wall_neighbors(tiles: Seq<TileType>, i: int) -> int {
    let x = col_of(i);
    let y = row_of(i);
    wall_at(tiles, x - 1, y) + wall_at(tiles, x + 1, y) + wall_at(tiles, x, y - 1) + wall_at(
        tiles,
        x,
        y + 1,
    ) + wall_at(tiles, x - 1, y - 1) + wall_at(tiles, x + 1, y - 1) + wall_at(tiles, x - 1, y + 1)
        + wall_at(tiles, x + 1, y + 1)
}

/// What one pass makes of cell `i`: inside the ring, wall where more than four or
/// none of its neighbours are walls and floor otherwise; the ring is kept.
pub open spec fn automaton_rule(tiles: Seq<TileType>, i: int) -> TileType {
    if is_interior(col_of(i), row_of(i)) {
        let n = wall_neighbors(tiles, i);
        if n > 4 || n == 0 {
            TileType::Wall
        } else {
            TileType::Floor
        }
    } else {
        tiles[i]
    }
}

/// The tiles after `n` smoothing passes.
pub open spec fn automaton_passes(t: Seq<TileType>, n: nat) -> Seq<TileType>
    decreases n,
{
    if n == 0 {
        t
    } else {
        let prev = automaton_passes(t, (n - 1) as nat);
        Seq::new(MAP_COUNT as nat, |i: int| automaton_rule(prev, i))
    }
}

/// Number of walls among the eight neighbours of an interior cell.
fn count_wall_neighbors(tiles: &Vec<TileType>, idx: usize) -> (r: u32)
    requires
        tiles@.len() == MAP_COUNT,
        idx < MAP_COUNT,
        is_interior(col_of(idx as int), row_of(idx as int)),
    ensures
        r as int == wall_neighbors(tiles@, idx as int),
{
    proof {
        lemma_coords_idx(idx as int);
    }
    let w: usize = 80;
    let mut n: u32 = 0;
    if tiles[idx - 1] == TileType::Wall {
        n = n + 1;
    }
    if tiles[idx + 1] == TileType::Wall {
        n = n + 1;
    }
    if tiles[idx - w] == TileType::Wall {
        n = n + 1;
    }
    if tiles[idx + w] == TileType::Wall {
        n = n + 1;
    }
    if tiles[idx - (w + 1)] == TileType::Wall {
        n = n + 1;
    }
    if tiles[idx - (w - 1)] == TileType::Wall {
        n = n + 1;
    }
    if tiles[idx + (w - 1)] == TileType::Wall {
        n = n + 1;
    }
    if tiles[idx + (w + 1)] == TileType::Wall {
        n = n + 1;
    }
    n
}

/// One smoothing pass, computed from the tiles as they were before it.
pub fn automaton_step(tiles: &Vec<TileType>) -> (r: Vec<TileType>)
    requires
        tiles@.len() == MAP_COUNT,
    ensures
        r@.len() == MAP_COUNT,
        forall|i: int| #![trigger r@[i]] valid_idx(i) ==> r@[i] == automaton_rule(tiles@, i),
{
    let mut out: Vec<TileType> = Vec::with_capacity(MAP_COUNT);
    let mut i: usize = 0;
    while i < MAP_COUNT
        invariant
            tiles@.len() == MAP_COUNT,
            0 <= i <= MAP_COUNT,
            out@.len() == i,
            forall|k: int| #![trigger out@[k]] 0 <= k < i ==> out@[k] == automaton_rule(tiles@, k),
        decreases MAP_COUNT - i,
    {
        let x = i % 80;
        let y = i / 80;
        let t = if 1 <= x && x < 79 && 1 <= y && y < 42 {
            let n = count_wall_neighbors(tiles, i);
            if n > 4 || n == 0 {
                TileType::Wall
            } else {
                TileType::Floor
            }
        } else {
            tiles[i]
        };
        out.push(t);
        i = i + 1;
    }
    out
}

/// Builds caverns with a cellular automaton.
pub struct CellularAutomataBuilder {
    pub map: Grid,
}

impl CellularAutomataBuilder {
    /// A builder for the given depth.
    pub fn new(new_depth: i32) -> (r: CellularAutomataBuilder)
        ensures
            r.map.wf(),
            r.map.depth == new_depth,
    {
        CellularAutomataBuilder { map: Grid::new(new_depth) }
    }

    /// Seeds every cell inside the ring as floor with chance 45 in 100, applies
    /// `AUTOMATON_PASSES` smoothing passes, enters at the first floor cell walking left
    /// from the centre, finishes the level and groups its floor by noise key.
    pub fn build(self, rng: &mut RandomNumberGenerator, noise_keys: &Vec<i32>) -> (r: Grid)
        requires
            self.map.wf(),
            noise_keys@.len() == MAP_COUNT,
        ensures
            is_playable(&r),
            regions_partition_floor(r.tiles@, r.regions@),
            r.depth == self.map.depth,
            r.upstairs.1 == 21,
            exists|g0: Seq<TileType>|
                {
                    let p = #[trigger] automaton_passes(g0, AUTOMATON_PASSES as nat);
                    &&& g0.len() == MAP_COUNT
                    &&& forall|i: int|
                        #![trigger r.tiles@[i]]
                        valid_idx(i) && r.tiles@[i] == TileType::Floor ==> p[i] == TileType::Floor
                    &&& 1 <= r.upstairs.0 <= 40
                    &&& (r.upstairs.0 == 1 || p[idx_of(r.upstairs.0 as int, 21)] == TileType::Floor)
                    &&& forall|x: int|
                        r.upstairs.0 < x <= 40 ==> #[trigger] p[idx_of(x, 21)] != TileType::Floor
                    &&& exit_is_most_distant(p, idx_of(r.upstairs.0 as int, 21), r.tiles@)
                    &&& forall|i: int|
                        #![trigger r.tiles@[i]]
                        valid_idx(i) && r.tiles@[i] != TileType::Wall ==> p[i] == TileType::Floor || i == idx_of(
                            r.upstairs.0 as int,
                            21,
                        ) || i == fallback_exit(r.upstairs.0 as int, 21)
                },
    {
        let mut map = self.map;
        let depth = map.depth;
        let mut y: i32 = 1;
        while y < MAP_HEIGHT - 1
            invariant
                map.wf(),
                map.depth == depth,
                1 <= y <= MAP_HEIGHT - 1,
            decreases MAP_HEIGHT - y,
        {
            let mut x: i32 = 1;
            while x < MAP_WIDTH - 1
                invariant
                    map.wf(),
                    map.depth == depth,
                    1 <= x <= MAP_WIDTH - 1,
                    1 <= y < MAP_HEIGHT - 1,
                decreases MAP_WIDTH - x,
            {
                let roll = roll_die(rng, 100);
                let idx = xy_idx(x, y);
                if roll > 55 {
                    map.tiles.set(idx, TileType::Floor);
                } else {
                    map.tiles.set(idx, TileType::Wall);
                }
                x = x + 1;
            }
            y = y + 1;
        }
        map.take_snapshot();
        let ghost g0 = map.tiles@;
        let mut pass: u32 = 0;
        while pass < AUTOMATON_PASSES
            invariant
                map.wf(),
                map.depth == depth,
                pass <= AUTOMATON_PASSES,
                map.tiles@ == automaton_passes(g0, pass as nat),
            decreases AUTOMATON_PASSES - pass,
        {
            let next = automaton_step(&map.tiles);
            assert(next@ =~= automaton_passes(g0, pass as nat + 1));
            map.tiles = next;
            map.take_snapshot();
            pass = pass + 1;
        }
        let ghost p = map.tiles@;
        let start_y: i32 = MAP_HEIGHT / 2;
        let mut start_x: i32 = MAP_WIDTH / 2;
        while start_x > 1 && map.tiles[xy_idx(start_x, start_y)] != TileType::Floor
            invariant
                map.wf(),
                map.tiles@ == p,
                1 <= start_x <= 40,
                start_y == 21,
                forall|x: int| start_x < x <= 40 ==> #[trigger] p[idx_of(x, 21)] != TileType::Floor,
            decreases start_x,
        {
            start_x = start_x - 1;
        }
        finalize_level(&mut map, start_x, start_y, None);
        proof {
            assert forall|i: int|
                #![trigger map.tiles@[i]]
                valid_idx(i) && map.tiles@[i] == TileType::Floor implies p[i] == TileType::Floor by {
                let pr = crate::level::prepared(p, idx_of(start_x as int, 21));
                assert(pr[i] == crate::level::prepared_tile(p, idx_of(start_x as int, 21), i));
            }
            assert(p == automaton_passes(g0, AUTOMATON_PASSES as nat));
            assert(exit_is_most_distant(p, idx_of(start_x as int, 21), map.tiles@));
            assert forall|i: int|
                #![trigger map.tiles@[i]]
                valid_idx(i) && map.tiles@[i] != TileType::Wall implies p[i] == TileType::Floor || i == idx_of(
                    start_x as int,
                    21,
                ) || i == fallback_exit(start_x as int, 21) by {
                let pr = crate::level::prepared(p, idx_of(start_x as int, 21));
                assert(pr[i] == crate::level::prepared_tile(p, idx_of(start_x as int, 21), i));
                if is_interior(col_of(i), row_of(i)) {
                    assert(p == automaton_passes(g0, AUTOMATON_PASSES as nat));
                    assert(p[i] == automaton_rule(automaton_passes(g0, (AUTOMATON_PASSES - 1) as nat), i));
                }
            }
        }
        map.take_snapshot();
        map.regions = generate_voronoi_spawn_regions(&map, noise_keys);
        map
    }
}

} // verus!
