//! What every finished level satisfies, and the common last stage of the builders
//! that establishes it: walled ring, pruned floor, one entry and one exit.
use vstd::prelude::*;

use crate::common::{keeps_all_but_tiles, make_boundary_walls, xy_idx};
use crate::connectivity::{
    adjacent, exit_candidate, is_distance_map, is_most_distant, is_path, is_step, labelled, lemma_idx_coords,
    lemma_labelled_reachable, pruned_tile, reachable, remove_unreachable_areas_returning_most_distant,
    valid_idx,
};
use crate::map::{idx_of, in_bounds, is_interior, on_ring, Grid, TileType, MAP_COUNT};

verus! {

/// Cell `c` holds `kind`, and no other cell does.
pub open spec fn unique_cell(tiles: Seq<TileType>, kind: TileType, c: int) -> bool {
    &&& valid_idx(c)
    &&& tiles[c] == kind
    &&& forall|i: int| #![trigger tiles[i]] valid_idx(i) && tiles[i] == kind ==> i == c
}

/// Index of the entry cell.
pub open spec fn entry_idx(g: &Grid) -> int {
    idx_of(g.upstairs.0 as int, g.upstairs.1 as int)
}

/// Exactly one entry, at `upstairs`, and exactly one exit.
pub open spec fn has_single_stairs(g: &Grid) -> bool {
    &&& in_bounds(g.upstairs.0 as int, g.upstairs.1 as int)
    &&& unique_cell(g.tiles@, TileType::UpStairs, entry_idx(g))
    &&& exists|e: int| #[trigger] unique_cell(g.tiles@, TileType::DownStairs, e)
}

/// Every floor cell, and the exit, can be walked to from the entry.
pub open spec fn floor_connected(g: &Grid) -> bool {
    &&& forall|i: int|
        #![trigger g.tiles@[i]]
        valid_idx(i) && g.tiles@[i] == TileType::Floor ==> reachable(g.tiles@, entry_idx(g), i)
    &&& forall|i: int|
        #![trigger g.tiles@[i]]
        valid_idx(i) && g.tiles@[i] == TileType::DownStairs ==> reachable(
            g.tiles@,
            entry_idx(g),
            i,
        )
}

/// Every cell of the outer ring is wall.
pub open spec fn walled_ring(g: &Grid) -> bool {
    forall|i: int| #![trigger g.tiles@[i]] valid_idx(i) && on_ring(i) ==> g.tiles@[i] == TileType::Wall
}

/// A finished level: well formed, with its stairs, connected floor, walled ring, and
/// `blocked` in step with the tiles.
pub open spec fn is_playable(g: &Grid) -> bool {
    &&& g.wf()
    &&& has_single_stairs(g)
    &&& floor_connected(g)
    &&& walled_ring(g)
    &&& forall|i: int|
        #![trigger g.blocked@[i]]
        valid_idx(i) ==> g.blocked@[i] == (g.tiles@[i] == TileType::Wall)
}

/// Fields that the last stage leaves alone.
pub open spec fn keeps_plan(a: &Grid, b: &Grid) -> bool {
    &&& b.rooms == a.rooms
    &&& b.regions == a.regions
    &&& b.depth == a.depth
    &&& b.show_history == a.show_history
}

/// The cell carved as exit where no other floor can be reached from the entry at
/// `(sx, sy)`: its right-hand neighbour, or its left-hand one at the right edge.
pub open spec fn fallback_exit(sx: int, sy: int) -> int {
    if sx + 1 <= 78 {
        idx_of(sx + 1, sy)
    } else {
        idx_of(sx - 1, sy)
    }
}

/// The tiles that the last stage searches: the ring walled, stairs read as floor,
/// and the entry `start` made floor.
pub open spec fn prepared_tile(t0: Seq<TileType>, start: int, i: int) -> TileType {
    if on_ring(i) {
        TileType::Wall
    } else if i == start {
        TileType::Floor
    } else if t0[i] == TileType::UpStairs || t0[i] == TileType::DownStairs {
        TileType::Floor
    } else {
        t0[i]
    }
}

/// The prepared tiles as a sequence.
pub open spec fn prepared(t0: Seq<TileType>, start: int) -> Seq<TileType> {
    Seq::new(MAP_COUNT as nat, |i: int| prepared_tile(t0, start, i))
}

/// In a finished level every open cell (floor or stairs) can be walked to from every
/// other open cell.
pub proof fn lemma_open_cells_connected(g: &Grid)
    requires
        is_playable(g),
    ensures
        forall|i: int, j: int|
            valid_idx(i) && valid_idx(j) && #[trigger] g.tiles@[i] != TileType::Wall && #[trigger] g.tiles@[j]
                != TileType::Wall ==> reachable(g.tiles@, i, j),
{
    let t = g.tiles@;
    let s = entry_idx(g);
    assert forall|i: int| valid_idx(i) && #[trigger] t[i] != TileType::Wall implies reachable(t, s, i) by {
        if t[i] == TileType::UpStairs {
            assert(i == s);
            let p = seq![s];
            assert(is_path(t, p));
            assert(p[0] == s && p.last() == i);
        }
    }
    assert forall|i: int, j: int|
        valid_idx(i) && valid_idx(j) && #[trigger] t[i] != TileType::Wall && #[trigger] t[j] != TileType::Wall
            implies reachable(t, i, j) by {
        crate::connectivity::lemma_reachable_through(t, s, i, j);
    }
}

/// The exit in `out` is the first cell of greatest cost from `start`, costs taken over
/// the tiles `t` prepared for the last stage, wherever such a cell exists.
pub open spec fn exit_is_most_distant(t: Seq<TileType>, start: int, out: Seq<TileType>) -> bool {
    exists|d: Seq<u32>|
        #[trigger] is_distance_map(prepared(t, start), start, d) && ((exists|i: int|
            #[trigger] exit_candidate(prepared(t, start), d, i)) ==> forall|e: int|
            #[trigger] is_most_distant(prepared(t, start), d, e) ==> out[e] == TileType::DownStairs)
}

/// Turns every stair cell back into floor.
pub fn clear_stairs(map: &mut Grid)
    requires
        old(map).wf(),
    ensures
        keeps_all_but_tiles(old(map), final(map)),
        forall|i: int|
            #![trigger final(map).tiles@[i]]
            0 <= i < MAP_COUNT ==> final(map).tiles@[i] == if old(map).tiles@[i]
                == TileType::UpStairs || old(map).tiles@[i] == TileType::DownStairs {
                TileType::Floor
            } else {
                old(map).tiles@[i]
            },
{
    let mut i: usize = 0;
    while i < MAP_COUNT
        invariant
            keeps_all_but_tiles(old(map), map),
            0 <= i <= MAP_COUNT,
            forall|k: int|
                #![trigger map.tiles@[k]]
                0 <= k < MAP_COUNT ==> map.tiles@[k] == if k < i && (old(map).tiles@[k]
                    == TileType::UpStairs || old(map).tiles@[k] == TileType::DownStairs) {
                    TileType::Floor
                } else {
                    old(map).tiles@[k]
                },
        decreases MAP_COUNT - i,
    {
        let t = map.tiles[i];
        if t == TileType::UpStairs || t == TileType::DownStairs {
            map.tiles.set(i, TileType::Floor);
        }
        i = i + 1;
    }
}

/// The last stage of every builder. Walls the outer ring, enters at `(sx, sy)`,
/// removes floor that cannot be reached from there, and places the exit: at
/// `preferred` where that cell is reachable floor, else at the most distant floor
/// cell, else (no other floor is reachable) on a neighbour of the entry that it carves.
#[verifier::rlimit(60)]
pub fn finalize_level(map: &mut Grid, sx: i32, sy: i32, preferred: Option<usize>)
    requires
        old(map).wf(),
        is_interior(sx as int, sy as int),
    ensures
        is_playable(final(map)),
        final(map).upstairs == (sx, sy),
        keeps_plan(old(map), final(map)),
        exists|d: Seq<u32>|
            {
                &&& is_distance_map(
                    prepared(old(map).tiles@, idx_of(sx as int, sy as int)),
                    idx_of(sx as int, sy as int),
                    d,
                )
                &&& match preferred {
                    Some(p) => (valid_idx(p as int) && p as int != idx_of(sx as int, sy as int)
                        && prepared(old(map).tiles@, idx_of(sx as int, sy as int))[p as int]
                        == TileType::Floor && labelled(d, p as int)) ==> final(map).tiles@[p as int]
                        == TileType::DownStairs,
                    None => (exists|i: int| #[trigger] exit_candidate(
                        prepared(old(map).tiles@, idx_of(sx as int, sy as int)),
                        d,
                        i,
                    )) ==> forall|e: int|
                        #[trigger] is_most_distant(
                            prepared(old(map).tiles@, idx_of(sx as int, sy as int)),
                            d,
                            e,
                        ) ==> final(map).tiles@[e] == TileType::DownStairs,
                }
            },
        forall|i: int|
            #![trigger final(map).tiles@[i]]
            valid_idx(i) && final(map).tiles@[i] == TileType::Floor ==> i != idx_of(sx as int, sy as int)
                && prepared(old(map).tiles@, idx_of(sx as int, sy as int))[i] == TileType::Floor,
        forall|i: int|
            #![trigger final(map).tiles@[i]]
            valid_idx(i) && final(map).tiles@[i] != TileType::Wall ==> prepared(
                old(map).tiles@,
                idx_of(sx as int, sy as int),
            )[i] != TileType::Wall || i == fallback_exit(sx as int, sy as int),
{
    make_boundary_walls(map);
    clear_stairs(map);
    let start = xy_idx(sx, sy);
    proof {
        lemma_idx_coords(sx as int, sy as int);
    }
    map.tiles.set(start, TileType::Floor);
    let ghost t1 = map.tiles@;
    assert(t1 =~= prepared(old(map).tiles@, start as int));
    assert(forall|i: int| valid_idx(i) && on_ring(i) ==> #[trigger] t1[i] == TileType::Wall);
    assert(forall|i: int|
        valid_idx(i) ==> #[trigger] t1[i] != TileType::UpStairs && t1[i] != TileType::DownStairs);
    let exit = remove_unreachable_areas_returning_most_distant(map, start);
    let ghost t2 = map.tiles@;
    let ghost d = choose|d: Seq<u32>|
        {
            &&& is_distance_map(t1, start as int, d)
            &&& forall|i: int|
                #![trigger t2[i]]
                0 <= i < MAP_COUNT ==> t2[i] == pruned_tile(t1, d, i)
            &&& crate::connectivity::is_most_distant(t1, d, exit as int)
        };
    assert(forall|i: int|
        valid_idx(i) && #[trigger] t2[i] == TileType::Floor ==> labelled(d, i) && i != 0);
    let mut e = exit;
    match preferred {
        Some(p) => {
            if p < MAP_COUNT && p != start && map.tiles[p] == TileType::Floor {
                e = p;
            }
        },
        None => {},
    }
    let ghost fallback = e == start || t2[e as int] != TileType::Floor;
    if e == start || map.tiles[e] != TileType::Floor {
        let n = if sx + 1 <= 78 {
            xy_idx(sx + 1, sy)
        } else {
            xy_idx(sx - 1, sy)
        };
        proof {
            if sx + 1 <= 78 {
                lemma_idx_coords(sx + 1, sy as int);
            } else {
                lemma_idx_coords(sx - 1, sy as int);
            }
            assert(adjacent(start as int, n as int));
            assert(!on_ring(n as int));
            assert(n as int == fallback_exit(sx as int, sy as int));
        }
        map.tiles.set(n, TileType::Floor);
        e = n;
    }
    map.tiles.set(start, TileType::UpStairs);
    map.tiles.set(e, TileType::DownStairs);
    map.upstairs = (sx, sy);
    map.populate_blocked();
    proof {
        let tf = map.tiles@;
        assert(e != start);
        assert(!on_ring(e as int));
        // every labelled cell stays free of walls
        assert forall|k: int| valid_idx(k) && labelled(d, k) implies #[trigger] tf[k]
            != TileType::Wall by {
            if k != start && k != e {
                assert(labelled(d, k));
                let j = choose|j: int|
                    valid_idx(j) && labelled(d, j) && #[trigger] is_step(t1, j, k) && d[j]
                        + crate::connectivity::step_cost(j, k) <= d[k];
                assert(t2[k] == pruned_tile(t1, d, k));
            }
        }
        assert forall|i: int|
            valid_idx(i) && #[trigger] tf[i] == TileType::Floor implies reachable(
                tf,
                start as int,
                i,
            ) by {
            assert(t2[i] == pruned_tile(t1, d, i));
            lemma_labelled_reachable(t1, tf, start as int, d, i);
        }
        if fallback {
            let p = seq![start as int, e as int];
            assert(is_path(tf, p));
            assert(p[0] == start && p.last() == e);
        } else {
            assert(t2[e as int] == TileType::Floor);
            lemma_labelled_reachable(t1, tf, start as int, d, e as int);
        }
        assert forall|i: int|
            valid_idx(i) && #[trigger] tf[i] == TileType::DownStairs implies i == e by {
            assert(t2[i] == pruned_tile(t1, d, i));
        }
        assert forall|i: int|
            valid_idx(i) && #[trigger] tf[i] == TileType::UpStairs implies i == start by {
            assert(t2[i] == pruned_tile(t1, d, i));
        }
        assert(unique_cell(tf, TileType::DownStairs, e as int));
        assert forall|i: int| valid_idx(i) && on_ring(i) implies #[trigger] tf[i]
            == TileType::Wall by {
            assert(t2[i] == pruned_tile(t1, d, i));
        }
        assert forall|i: int|
            #![trigger tf[i]]
            valid_idx(i) && tf[i] == TileType::Floor implies i != start && t1[i] == TileType::Floor by {
            assert(t2[i] == pruned_tile(t1, d, i));
        }
        assert forall|i: int|
            #![trigger tf[i]]
            valid_idx(i) && tf[i] != TileType::Wall implies t1[i] != TileType::Wall || i == fallback_exit(sx as int, sy as int) by {
            assert(t2[i] == pruned_tile(t1, d, i));
            if fallback && i == e as int {
                assert(i == fallback_exit(sx as int, sy as int));
            }
        }
        match preferred {
            None => {
                if exists|i: int| #[trigger] exit_candidate(t1, d, i) {
                    assert forall|e2: int| #[trigger] is_most_distant(t1, d, e2) implies tf[e2] == TileType::DownStairs by {
                        assert(is_most_distant(t1, d, exit as int));
                        if e2 < exit {
                            assert(d[e2] < d[exit as int]);
                        } else if e2 > exit {
                            assert(d[exit as int] < d[e2]);
                        }
                        assert(t2[exit as int] == pruned_tile(t1, d, exit as int));
                    }
                }
            },
            Some(p) => {
                if valid_idx(p as int) && p != start && t1[p as int] == TileType::Floor && labelled(d, p as int) {
                    assert(t2[p as int] == pruned_tile(t1, d, p as int));
                    assert(e == p);
                }
            },
        }
    }
}

} // verus!
