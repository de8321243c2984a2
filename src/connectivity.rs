//! The connectivity analyzer: shortest step costs from one cell over the
//! eight-way adjacency, pruning of unreachable floor, and the most distant exit.
use vstd::prelude::*;

use crate::map::{col_of, Grid, idx_of, row_of, TileType, MAP_COUNT, MAP_HEIGHT, MAP_WIDTH};

verus! {

/// Cost of a cardinal step, in hundredths of a tile.
pub const CARDINAL_COST: u32 = 100;

/// Cost of a diagonal step, in hundredths of a tile.
pub const DIAGONAL_COST: u32 = 145;

/// Labels are kept strictly below this cost; farther cells count as unreached.
pub const MAX_DEPTH: u32 = 20000;

/// Label of a cell that the search did not reach.
pub const UNREACHED: u32 = 0xffff_ffff;

/// The index names a cell of the grid.
pub open spec fn valid_idx(i: int) -> bool {
    0 <= i < MAP_COUNT as int
}

/// Cost of moving from cell `a` to cell `b`: 100 for a cardinal neighbour, 145 for a
/// diagonal one, 0 when the cells are not neighbours.
pub open spec fn step_cost(a: int, b: int) -> int {
    let dx = col_of(b) - col_of(a);
    let dy = row_of(b) - row_of(a);
    if valid_idx(a) && valid_idx(b) && -1 <= dx <= 1 && -1 <= dy <= 1 && (dx != 0 || dy != 0) {
        if dx == 0 || dy == 0 {
            CARDINAL_COST as int
        } else {
            DIAGONAL_COST as int
        }
    } else {
        0
    }
}

/// The cells are eight-way neighbours.
pub open spec fn adjacent(a: int, b: int) -> bool {
    step_cost(a, b) > 0
}

/// A move may end on cell `b`: it lies in columns `1..=79`, rows `1..=42`, and is no wall.
pub open spec fn exit_valid(tiles: Seq<TileType>, b: int) -> bool {
    &&& valid_idx(b)
    &&& 1 <= col_of(b) <= MAP_WIDTH as int - 1
    &&& 1 <= row_of(b) <= MAP_HEIGHT as int - 1
    &&& tiles[b] != TileType::Wall
}

/// One move of the search, from `a` to `b`.
pub open spec fn is_step(tiles: Seq<TileType>, a: int, b: int) -> bool {
    adjacent(a, b) && exit_valid(tiles, b)
}

/// The cell carries a label.
pub open spec fn labelled(d: Seq<u32>, i: int) -> bool {
    d[i] != UNREACHED
}

/// Every labelled cell other than the start is reached by a step from a labelled
/// cell that costs no more than its label.
pub open spec fn supported(tiles: Seq<TileType>, start: int, d: Seq<u32>) -> bool {
    forall|i: int|
        #![trigger d[i]]
        valid_idx(i) && labelled(d, i) && i != start ==> exists|j: int|
            valid_idx(j) && labelled(d, j) && #[trigger] is_step(tiles, j, i) && d[j] + step_cost(
                j,
                i,
            ) <= d[i]
}

/// No step out of a labelled cell leads to a cheaper label that the map misses.
pub open spec fn closed_at(tiles: Seq<TileType>, d: Seq<u32>, i: int) -> bool {
    forall|j: int|
        #![trigger is_step(tiles, j, i)]
        valid_idx(j) && labelled(d, j) && is_step(tiles, j, i) && d[j] + step_cost(j, i)
            < MAX_DEPTH ==> labelled(d, i) && d[i] <= d[j] + step_cost(j, i)
}

/// The labels common to every stage of the search.
pub open spec fn partial_map(tiles: Seq<TileType>, start: int, d: Seq<u32>) -> bool {
    &&& tiles.len() == MAP_COUNT
    &&& d.len() == MAP_COUNT
    &&& valid_idx(start)
    &&& d[start] == 0
    &&& forall|i: int| #![trigger d[i]] valid_idx(i) && labelled(d, i) ==> d[i] < MAX_DEPTH
    &&& supported(tiles, start, d)
}

/// `d` holds, for each cell, the least cost of a sequence of steps from `start`,
/// where that cost is below `MAX_DEPTH`, and `UNREACHED` elsewhere.
pub open spec fn is_distance_map(tiles: Seq<TileType>, start: int, d: Seq<u32>) -> bool {
    &&& partial_map(tiles, start, d)
    &&& forall|i: int| valid_idx(i) ==> closed_at(tiles, d, i)
}

/// A walk over non-wall cells, each step to an eight-way neighbour.
pub open spec fn is_path(tiles: Seq<TileType>, p: Seq<int>) -> bool {
    &&& p.len() >= 1
    &&& forall|k: int|
        #![trigger p[k]]
        0 <= k < p.len() ==> valid_idx(p[k]) && tiles[p[k]] != TileType::Wall
    &&& forall|k: int| #![trigger p[k + 1]] 0 <= k < p.len() - 1 ==> adjacent(p[k], p[k + 1])
}

/// Cell `b` can be walked to from cell `a` without crossing a wall.
pub open spec fn reachable(tiles: Seq<TileType>, a: int, b: int) -> bool {
    exists|p: Seq<int>| #[trigger] is_path(tiles, p) && p[0] == a && p.last() == b
}

/// Weight of one label in the measure that each relaxing sweep lowers.
pub open spec fn label_weight(v: u32) -> nat {
    if v == UNREACHED {
        MAX_DEPTH as nat
    } else {
        v as nat
    }
}

/// Sum of the label weights.
pub open spec fn label_total(s: Seq<u32>) -> nat
    decreases s.len(),
{
    if s.len() == 0 {
        0
    } else {
        label_total(s.drop_last()) + label_weight(s.last())
    }
}

proof fn lemma_label_total_update(s: Seq<u32>, k: int, v: u32)
    requires
        0 <= k < s.len(),
    ensures
        label_total(s.update(k, v)) as int == label_total(s) as int - label_weight(s[k]) as int
            + label_weight(v) as int,
    decreases s.len(),
{
    if k == s.len() - 1 {
        assert(s.update(k, v).drop_last() =~= s.drop_last());
    } else {
        lemma_label_total_update(s.drop_last(), k, v);
        assert(s.update(k, v).drop_last() =~= s.drop_last().update(k, v));
    }
}

/// Column and row of an index built from a column and a row.
pub proof fn lemma_idx_coords(x: int, y: int)
    requires
        0 <= x < MAP_WIDTH as int,
        0 <= y,
    ensures
        col_of(idx_of(x, y)) == x,
        row_of(idx_of(x, y)) == y,
{
    vstd::arithmetic::div_mod::lemma_fundamental_div_mod_converse(
        idx_of(x, y),
        MAP_WIDTH as int,
        y,
        x,
    );
}

/// An index is rebuilt from its column and row.
pub proof fn lemma_coords_idx(i: int)
    requires
        0 <= i,
    ensures
        idx_of(col_of(i), row_of(i)) == i,
        0 <= col_of(i) < MAP_WIDTH as int,
        0 <= row_of(i),
{
    vstd::arithmetic::div_mod::lemma_fundamental_div_mod(i, MAP_WIDTH as int);
}

/// Neighbour `k` (of eight) of cell `i` with its cost, where it lies on the grid.
pub open spec fn neighbor_dx(k: int) -> int {
    if k == 0 || k == 4 || k == 6 {
        -1
    } else if k == 1 || k == 5 || k == 7 {
        1
    } else {
        0
    }
}

pub open spec fn neighbor_dy(k: int) -> int {
    if k == 2 || k == 4 || k == 5 {
        -1
    } else if k == 3 || k == 6 || k == 7 {
        1
    } else {
        0
    }
}

/// The best label found for cell `i` already accounts for its neighbour at offset `k`.
pub open spec fn covers(d: Seq<u32>, i: int, k: int, best: u32) -> bool {
    let jx = col_of(i) + neighbor_dx(k);
    let jy = row_of(i) + neighbor_dy(k);
    let j = idx_of(jx, jy);
    (0 <= jx < MAP_WIDTH as int && 0 <= jy < MAP_HEIGHT as int && labelled(d, j) && d[j]
        + step_cost(j, i) < MAX_DEPTH) ==> best != UNREACHED && best <= d[j] + step_cost(j, i)
}

/// Every neighbour of a cell is one of its eight offsets.
proof fn lemma_neighbor_offset(i: int, j: int) -> (k: int)
    requires
        adjacent(j, i),
    ensures
        0 <= k < 8,
        col_of(j) == col_of(i) + neighbor_dx(k),
        row_of(j) == row_of(i) + neighbor_dy(k),
{
    let dx = col_of(j) - col_of(i);
    let dy = row_of(j) - row_of(i);
    if dx == -1 && dy == 0 {
        0
    } else if dx == 1 && dy == 0 {
        1
    } else if dx == 0 && dy == -1 {
        2
    } else if dx == 0 && dy == 1 {
        3
    } else if dx == -1 && dy == -1 {
        4
    } else if dx == 1 && dy == -1 {
        5
    } else if dx == -1 && dy == 1 {
        6
    } else {
        7
    }
}

/// The neighbour of cell `i` at offset `k`, with the cost of the step between them.
fn neighbor(i: usize, k: usize) -> (r: Option<(usize, u32)>)
    requires
        i < MAP_COUNT,
        k < 8,
    ensures
        match r {
            Some((j, c)) => {
                &&& j < MAP_COUNT
                &&& col_of(j as int) == col_of(i as int) + neighbor_dx(k as int)
                &&& row_of(j as int) == row_of(i as int) + neighbor_dy(k as int)
                &&& adjacent(j as int, i as int)
                &&& c as int == step_cost(j as int, i as int)
            },
            None => !(0 <= col_of(i as int) + neighbor_dx(k as int) < MAP_WIDTH as int && 0
                <= row_of(i as int) + neighbor_dy(k as int) < MAP_HEIGHT as int),
        },
{
    let x = (i % 80) as i32;
    let y = (i / 80) as i32;
    let dx: i32 = if k == 0 || k == 4 || k == 6 {
        -1
    } else if k == 1 || k == 5 || k == 7 {
        1
    } else {
        0
    };
    let dy: i32 = if k == 2 || k == 4 || k == 5 {
        -1
    } else if k == 3 || k == 6 || k == 7 {
        1
    } else {
        0
    };
    let nx = x + dx;
    let ny = y + dy;
    if nx < 0 || nx >= MAP_WIDTH || ny < 0 || ny >= MAP_HEIGHT {
        return None;
    }
    let j = (ny as usize) * 80 + (nx as usize);
    proof {
        lemma_idx_coords(nx as int, ny as int);
    }
    let c = if dx == 0 || dy == 0 {
        CARDINAL_COST
    } else {
        DIAGONAL_COST
    };
    Some((j, c))
}

/// Whether a move may end on cell `i`.
fn exit_ok(tiles: &Vec<TileType>, i: usize) -> (r: bool)
    requires
        tiles@.len() == MAP_COUNT,
        i < MAP_COUNT,
    ensures
        r == exit_valid(tiles@, i as int),
{
    let x = i % 80;
    let y = i / 80;
    1 <= x && x <= 79 && 1 <= y && y <= 42 && tiles[i] != TileType::Wall
}

/// Shortest step costs from `start`: a label-correcting search that relaxes every
/// cell from its eight neighbours until a whole sweep changes nothing.
pub fn distance_map(tiles: &Vec<TileType>, start: usize) -> (d: Vec<u32>)
    requires
        tiles@.len() == MAP_COUNT,
        start < MAP_COUNT,
    ensures
        is_distance_map(tiles@, start as int, d@),
{
    let mut d: Vec<u32> = Vec::with_capacity(MAP_COUNT);
    while d.len() < MAP_COUNT
        invariant
            d@.len() <= MAP_COUNT,
            forall|i: int| 0 <= i < d@.len() ==> d@[i] == UNREACHED,
        decreases MAP_COUNT - d@.len(),
    {
        d.push(UNREACHED);
    }
    d.set(start, 0);
    assert(partial_map(tiles@, start as int, d@));
    loop
        invariant
            partial_map(tiles@, start as int, d@),
        ensures
            is_distance_map(tiles@, start as int, d@),
        decreases label_total(d@),
    {
        let ghost d0 = d@;
        let mut changed = false;
        let mut i: usize = 0;
        while i < MAP_COUNT
            invariant
                0 <= i <= MAP_COUNT,
                partial_map(tiles@, start as int, d@),
                !changed ==> d@ == d0,
                changed ==> label_total(d@) < label_total(d0),
                !changed ==> forall|i2: int| 0 <= i2 < i ==> closed_at(tiles@, d@, i2),
            decreases MAP_COUNT - i,
        {
            if i != start && exit_ok(tiles, i) {
                let mut best: u32 = UNREACHED;
                let mut best_from: usize = 0;
                let mut k: usize = 0;
                while k < 8
                    invariant
                        0 <= k <= 8,
                        i < MAP_COUNT,
                        partial_map(tiles@, start as int, d@),
                        exit_valid(tiles@, i as int),
                        best != UNREACHED ==> best < MAX_DEPTH && valid_idx(best_from as int)
                            && labelled(d@, best_from as int) && is_step(
                            tiles@,
                            best_from as int,
                            i as int,
                        ) && d@[best_from as int] + step_cost(best_from as int, i as int) <= best,
                        forall|k2: int| 0 <= k2 < k ==> #[trigger] covers(d@, i as int, k2, best),
                    decreases 8 - k,
                {
                    match neighbor(i, k) {
                        Some((j, c)) => {
                            proof {
                                lemma_idx_coords(col_of(j as int), row_of(j as int));
                                lemma_coords_idx(j as int);
                            }
                            let dj = d[j];
                            if dj != UNREACHED {
                                let cand = dj + c;
                                if cand < MAX_DEPTH && cand < best {
                                    let ghost old_best = best;
                                    best = cand;
                                    best_from = j;
                                    assert forall|k2: int| 0 <= k2 < k implies #[trigger] covers(
                                        d@,
                                        i as int,
                                        k2,
                                        best,
                                    ) by {
                                        assert(covers(d@, i as int, k2, old_best));
                                    }
                                }
                            }
                        },
                        None => {},
                    }
                    k = k + 1;
                }
                if best < d[i] {
                    let ghost before = d@;
                    d.set(i, best);
                    proof {
                        lemma_label_total_update(before, i as int, best);
                        assert(is_step(tiles@, best_from as int, i as int));
                        assert forall|i3: int|
                            #![trigger d@[i3]]
                            valid_idx(i3) && labelled(d@, i3) && i3 != start implies exists|j: int|
                                valid_idx(j) && labelled(d@, j) && #[trigger] is_step(
                                    tiles@,
                                    j,
                                    i3,
                                ) && d@[j] + step_cost(j, i3) <= d@[i3] by {
                            if i3 == i {
                                assert(valid_idx(best_from as int) && labelled(
                                    d@,
                                    best_from as int,
                                ) && is_step(tiles@, best_from as int, i3));
                            } else {
                                assert(labelled(before, i3));
                                let j = choose|j: int|
                                    valid_idx(j) && labelled(before, j) && #[trigger] is_step(
                                        tiles@,
                                        j,
                                        i3,
                                    ) && before[j] + step_cost(j, i3) <= before[i3];
                                assert(valid_idx(j) && labelled(d@, j) && is_step(tiles@, j, i3)
                                    && d@[j] + step_cost(j, i3) <= d@[i3]);
                            }
                        }
                    }
                    changed = true;
                } else {
                    proof {
                        assert forall|j: int|
                            #![trigger is_step(tiles@, j, i as int)]
                            valid_idx(j) && labelled(d@, j) && is_step(tiles@, j, i as int) && d@[j]
                                + step_cost(j, i as int) < MAX_DEPTH implies labelled(
                            d@,
                            i as int,
                        ) && d@[i as int] <= d@[j] + step_cost(j, i as int) by {
                            let k2 = lemma_neighbor_offset(i as int, j);
                            lemma_coords_idx(j);
                            assert(covers(d@, i as int, k2, best));
                        }
                    }
                }
            } else {
                proof {
                    if i == start {
                        assert forall|j: int|
                            #![trigger is_step(tiles@, j, i as int)]
                            valid_idx(j) && labelled(d@, j) && is_step(tiles@, j, i as int) && d@[j]
                                + step_cost(j, i as int) < MAX_DEPTH implies labelled(
                            d@,
                            i as int,
                        ) && d@[i as int] <= d@[j] + step_cost(j, i as int) by {}
                    }
                }
            }
            i = i + 1;
        }
        if !changed {
            break;
        }
    }
    d
}

/// Every labelled cell can be walked to from the start, in any tile sequence that
/// keeps all labelled cells free of walls.
pub proof fn lemma_labelled_reachable(
    tiles: Seq<TileType>,
    walk_tiles: Seq<TileType>,
    start: int,
    d: Seq<u32>,
    i: int,
)
    requires
        partial_map(tiles, start, d),
        walk_tiles.len() == MAP_COUNT,
        forall|k: int| valid_idx(k) && labelled(d, k) ==> walk_tiles[k] != TileType::Wall,
        valid_idx(i),
        labelled(d, i),
    ensures
        reachable(walk_tiles, start, i),
    decreases d[i],
{
    assert(labelled(d, start));
    if i == start {
        let p = seq![start];
        assert(is_path(walk_tiles, p));
        assert(p[0] == start && p.last() == i);
    } else {
        assert(labelled(d, i));
        let j = choose|j: int|
            valid_idx(j) && labelled(d, j) && #[trigger] is_step(tiles, j, i) && d[j] + step_cost(j, i)
                <= d[i];
        lemma_labelled_reachable(tiles, walk_tiles, start, d, j);
        let p = choose|p: Seq<int>| is_path(walk_tiles, p) && p[0] == start && p.last() == j;
        let q = p.push(i);
        assert forall|k: int| 0 <= k < q.len() - 1 implies adjacent(q[k], #[trigger] q[k + 1]) by {
            if k < p.len() - 1 {
                assert(q[k] == p[k] && q[k + 1] == p[k + 1]);
            }
        }
        assert forall|k: int| 0 <= k < q.len() implies valid_idx(#[trigger] q[k]) && walk_tiles[q[k]]
            != TileType::Wall by {
            if k < p.len() {
                assert(q[k] == p[k]);
            }
        }
        assert(is_path(walk_tiles, q));
        assert(q[0] == start && q.last() == i);
    }
}

/// Tiles after pruning: floor that carries no label becomes wall.
pub open spec fn pruned_tile(t0: Seq<TileType>, d: Seq<u32>, i: int) -> TileType {
    if t0[i] == TileType::Floor && !labelled(d, i) {
        TileType::Wall
    } else {
        t0[i]
    }
}

/// A floor cell with a positive label: a candidate for the exit.
pub open spec fn exit_candidate(t0: Seq<TileType>, d: Seq<u32>, i: int) -> bool {
    valid_idx(i) && t0[i] == TileType::Floor && labelled(d, i) && d[i] > 0
}

/// `e` is the first candidate of greatest label, or 0 where there is no candidate.
pub open spec fn is_most_distant(t0: Seq<TileType>, d: Seq<u32>, e: int) -> bool {
    if exists|i: int| #[trigger] exit_candidate(t0, d, i) {
        &&& exit_candidate(t0, d, e)
        &&& forall|i: int| #[trigger] exit_candidate(t0, d, i) ==> d[i] <= d[e]
        &&& forall|i: int| 0 <= i < e && #[trigger] exit_candidate(t0, d, i) ==> d[i] < d[e]
    } else {
        e == 0
    }
}

/// Labels every cell with its cost from `start_idx`, turns unlabelled floor into wall,
/// and returns the first floor cell of greatest positive cost (0 where there is none).
pub fn remove_unreachable_areas_returning_most_distant(map: &mut Grid, start_idx: usize) -> (r:
    usize)
    requires
        old(map).wf(),
        start_idx < MAP_COUNT,
    ensures
        final(map).wf(),
        r < MAP_COUNT,
        exists|d: Seq<u32>|
            {
                &&& is_distance_map(old(map).tiles@, start_idx as int, d)
                &&& forall|i: int|
                    #![trigger final(map).tiles@[i]]
                    0 <= i < MAP_COUNT ==> final(map).tiles@[i] == pruned_tile(
                        old(map).tiles@,
                        d,
                        i,
                    )
                &&& is_most_distant(old(map).tiles@, d, r as int)
            },
        final(map).rooms == old(map).rooms,
        final(map).regions == old(map).regions,
        final(map).upstairs == old(map).upstairs,
        final(map).depth == old(map).depth,
        final(map).show_history == old(map).show_history,
{
    map.populate_blocked();
    let d = distance_map(&map.tiles, start_idx);
    let ghost t0 = map.tiles@;
    let mut exit: usize = 0;
    let mut exit_cost: u32 = 0;
    let mut i: usize = 0;
    while i < MAP_COUNT
        invariant
            map.wf(),
            t0 == old(map).tiles@,
            is_distance_map(t0, start_idx as int, d@),
            0 <= i <= MAP_COUNT,
            exit < MAP_COUNT,
            forall|k: int|
                #![trigger map.tiles@[k]]
                0 <= k < i ==> map.tiles@[k] == pruned_tile(t0, d@, k),
            forall|k: int| i <= k < MAP_COUNT ==> map.tiles@[k] == t0[k],
            exit_cost == 0 ==> exit == 0 && forall|k: int|
                0 <= k < i ==> !(#[trigger] exit_candidate(t0, d@, k)),
            exit_cost > 0 ==> exit < i && exit_candidate(t0, d@, exit as int) && d@[exit as int]
                == exit_cost && (forall|k: int|
                0 <= k < i && #[trigger] exit_candidate(t0, d@, k) ==> d@[k] <= exit_cost) && (
            forall|k: int|
                0 <= k < exit && #[trigger] exit_candidate(t0, d@, k) ==> d@[k] < exit_cost),
            map.rooms == old(map).rooms,
            map.regions == old(map).regions,
            map.upstairs == old(map).upstairs,
            map.depth == old(map).depth,
            map.show_history == old(map).show_history,
        decreases MAP_COUNT - i,
    {
        if map.tiles[i] == TileType::Floor {
            let di = d[i];
            if di == UNREACHED {
                map.tiles.set(i, TileType::Wall);
            } else if di > exit_cost {
                exit = i;
                exit_cost = di;
            }
        }
        i = i + 1;
    }
    proof {
        if exists|k: int| #[trigger] exit_candidate(t0, d@, k) {
            let k = choose|k: int| #[trigger] exit_candidate(t0, d@, k);
            assert(exit_cost > 0);
        }
        assert(is_most_distant(t0, d@, exit as int));
    }
    exit
}

/// The neighbour of cell `i` at offset `k`, where a move may end there, is listed.
pub open spec fn exit_listed(tiles: Seq<TileType>, exits: Seq<(usize, u32)>, i: int, k: int) -> bool {
    let jx = col_of(i) + neighbor_dx(k);
    let jy = row_of(i) + neighbor_dy(k);
    (0 <= jx < MAP_WIDTH && 0 <= jy < MAP_HEIGHT && is_step(tiles, i, idx_of(jx, jy))) ==> exists|e: int|
        0 <= e < exits.len() && #[trigger] exits[e].0 as int == idx_of(jx, jy)
}

impl Grid {
    /// Whether a move may end on the cell at `(x, y)`: columns `1..=79`, rows `1..=42`,
    /// and no wall.
    pub fn is_exit_valid(&self, x: i32, y: i32) -> (r: bool)
        requires
            self.wf(),
        ensures
            r == (1 <= x <= MAP_WIDTH - 1 && 1 <= y <= MAP_HEIGHT - 1 && self.tiles@[idx_of(
                x as int,
                y as int,
            )] != TileType::Wall),
    {
        if x < 1 || x > MAP_WIDTH - 1 || y < 1 || y > MAP_HEIGHT - 1 {
            return false;
        }
        let idx = crate::common::xy_idx(x, y);
        self.tiles[idx] != TileType::Wall
    }

    /// The moves out of cell `idx` with their costs: west, east, north, south, then
    /// the four diagonals, each where the move may end there.
    pub fn get_available_exits(&self, idx: usize) -> (r: Vec<(usize, u32)>)
        requires
            self.wf(),
            idx < MAP_COUNT,
        ensures
            r@.len() <= 8,
            forall|k: int|
                0 <= k < r@.len() ==> is_step(self.tiles@, idx as int, #[trigger] r@[k].0 as int)
                    && r@[k].1 as int == step_cost(idx as int, r@[k].0 as int),
            forall|j: int|
                #![trigger is_step(self.tiles@, idx as int, j)]
                is_step(self.tiles@, idx as int, j) ==> exists|k: int| 0 <= k < r@.len() && #[trigger] r@[k].0 as int == j,
    {
        let mut exits: Vec<(usize, u32)> = Vec::new();
        let mut k: usize = 0;
        while k < 8
            invariant
                self.wf(),
                idx < MAP_COUNT,
                0 <= k <= 8,
                exits@.len() <= k,
                forall|e: int|
                    0 <= e < exits@.len() ==> is_step(self.tiles@, idx as int, #[trigger] exits@[e].0 as int)
                        && exits@[e].1 as int == step_cost(idx as int, exits@[e].0 as int),
                forall|k2: int| 0 <= k2 < k ==> #[trigger] exit_listed(self.tiles@, exits@, idx as int, k2),
            decreases 8 - k,
        {
            match neighbor(idx, k) {
                Some((j, c)) => {
                    proof {
                        lemma_coords_idx(j as int);
                    }
                    if exit_ok(&self.tiles, j) {
                        let ghost before = exits@;
                        exits.push((j, c));
                        proof {
                            assert(exits@[exits@.len() - 1].0 == j);
                            assert forall|k2: int| 0 <= k2 < k implies #[trigger] exit_listed(self.tiles@, exits@, idx as int, k2) by {
                                assert(exit_listed(self.tiles@, before, idx as int, k2));
                                let jx = col_of(idx as int) + neighbor_dx(k2);
                                let jy = row_of(idx as int) + neighbor_dy(k2);
                                if 0 <= jx < MAP_WIDTH && 0 <= jy < MAP_HEIGHT && is_step(self.tiles@, idx as int, idx_of(jx, jy)) {
                                    let e = choose|e: int| 0 <= e < before.len() && #[trigger] before[e].0 as int == idx_of(jx, jy);
                                    assert(exits@[e] == before[e]);
                                }
                            }
                        }
                    }
                },
                None => {},
            }
            k = k + 1;
        }
        proof {
            assert forall|j: int|
                #![trigger is_step(self.tiles@, idx as int, j)]
                is_step(self.tiles@, idx as int, j) implies exists|e: int| 0 <= e < exits@.len() && #[trigger] exits@[e].0 as int == j by {
                let k2 = lemma_neighbor_offset(idx as int, j);
                lemma_coords_idx(j);
                assert(exit_listed(self.tiles@, exits@, idx as int, k2));
            }
        }
        exits
    }
}

/// Any two cells reachable from a common cell are reachable from each other.
pub proof fn lemma_reachable_through(tiles: Seq<TileType>, s: int, a: int, b: int)
    requires
        reachable(tiles, s, a),
        reachable(tiles, s, b),
    ensures
        reachable(tiles, a, b),
{
    let p = choose|p: Seq<int>| #[trigger] is_path(tiles, p) && p[0] == s && p.last() == a;
    let q = choose|q: Seq<int>| #[trigger] is_path(tiles, q) && q[0] == s && q.last() == b;
    let n = p.len();
    let rp = Seq::new(n, |k: int| p[n - 1 - k]);
    let w = rp + q.drop_first();
    assert forall|k: int| 0 <= k < w.len() implies valid_idx(#[trigger] w[k]) && tiles[w[k]] != TileType::Wall by {
        if k < n {
            assert(w[k] == p[n - 1 - k]);
        } else {
            assert(w[k] == q[k - n + 1]);
        }
    }
    assert forall|k: int| 0 <= k < w.len() - 1 implies adjacent(w[k], #[trigger] w[k + 1]) by {
        if k + 1 < n {
            assert(w[k] == p[n - 1 - k] && w[k + 1] == p[n - 2 - k]);
            let m = n - 2 - k;
            assert(p[m + 1] == p[n - 1 - k]);
            assert(adjacent(p[m], p[m + 1]));
        } else if k + 1 == n {
            assert(w[k] == p[0] && w[k + 1] == q[1]);
            assert(adjacent(q[0], q[1]));
        } else {
            assert(w[k] == q[k - n + 1] && w[k + 1] == q[k - n + 2]);
        }
    }
    assert(is_path(tiles, w));
    assert(w[0] == a);
    assert(w.last() == b) by {
        if q.len() == 1 {
            assert(w.last() == p[0]);
        } else {
            assert(w.last() == q.last());
        }
    }
}

} // verus!
