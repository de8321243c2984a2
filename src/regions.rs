//! Spawn regions: floor cells grouped by room, or by a per-cell noise key.
use std::collections::HashMap;

use vstd::prelude::*;

use crate::common::in_room;
use crate::connectivity::valid_idx;
use crate::map::{col_of, is_interior, row_of, Grid, TileType, MAP_COUNT};

verus! {

broadcast use vstd::std_specs::hash::group_hash_axioms;

/// Every listed cell is a floor cell of the grid, and no cell is listed twice, within
/// one region or across two.
pub open spec fn regions_partition_floor(tiles: Seq<TileType>, regions: Map<i32, Vec<usize>>) -> bool {
    &&& forall|k: i32, a: int|
        #![trigger regions[k]@[a]]
        regions.contains_key(k) && 0 <= a < regions[k]@.len() ==> valid_idx(regions[k]@[a] as int)
            && tiles[regions[k]@[a] as int] == TileType::Floor
    &&& forall|k1: i32, a: int, k2: i32, b: int|
        #![trigger regions[k1]@[a], regions[k2]@[b]]
        regions.contains_key(k1) && regions.contains_key(k2) && 0 <= a < regions[k1]@.len() && 0
            <= b < regions[k2]@.len() && regions[k1]@[a] == regions[k2]@[b] ==> k1 == k2 && a == b
}

/// Cell `i` is listed in region `k`.
pub open spec fn listed(regions: Map<i32, Vec<usize>>, k: i32, i: int) -> bool {
    regions.contains_key(k) && exists|a: int|
        0 <= a < regions[k]@.len() && #[trigger] regions[k]@[a] as int == i
}

/// The cells of the sequence increase strictly.
pub open spec fn increasing(s: Seq<usize>) -> bool {
    forall|a: int, b: int| 0 <= a < b < s.len() ==> #[trigger] s[a] < #[trigger] s[b]
}

/// Groups the floor cells inside the ring by their noise key: region `k` lists, in
/// index order, every such cell whose key is `k`.
pub fn generate_voronoi_spawn_regions(map: &Grid, keys: &Vec<i32>) -> (r: HashMap<i32, Vec<usize>>)
    requires
        map.wf(),
        keys@.len() == MAP_COUNT,
    ensures
        regions_partition_floor(map.tiles@, r@),
        forall|k: i32, a: int|
            #![trigger r@[k]@[a]]
            r@.contains_key(k) && 0 <= a < r@[k]@.len() ==> keys@[r@[k]@[a] as int] == k
                && is_interior(col_of(r@[k]@[a] as int), row_of(r@[k]@[a] as int)),
        forall|i: int|
            #![trigger map.tiles@[i]]
            valid_idx(i) && map.tiles@[i] == TileType::Floor && is_interior(col_of(i), row_of(i))
                ==> listed(r@, keys@[i], i),
        forall|k: i32| #[trigger] r@.contains_key(k) ==> increasing(r@[k]@) && r@[k]@.len() > 0,
{
    let mut r: HashMap<i32, Vec<usize>> = HashMap::new();
    let mut i: usize = 0;
    while i < MAP_COUNT
        invariant
            map.wf(),
            keys@.len() == MAP_COUNT,
            0 <= i <= MAP_COUNT,
            forall|k: i32, a: int|
                #![trigger r@[k]@[a]]
                r@.contains_key(k) && 0 <= a < r@[k]@.len() ==> r@[k]@[a] < i && keys@[r@[k]@[a] as int]
                    == k && map.tiles@[r@[k]@[a] as int] == TileType::Floor && is_interior(
                    col_of(r@[k]@[a] as int),
                    row_of(r@[k]@[a] as int),
                ),
            forall|k: i32| #[trigger] r@.contains_key(k) ==> increasing(r@[k]@) && r@[k]@.len() > 0,
            forall|c: int|
                #![trigger map.tiles@[c]]
                0 <= c < i && map.tiles@[c] == TileType::Floor && is_interior(col_of(c), row_of(c))
                    ==> listed(r@, keys@[c], c),
        decreases MAP_COUNT - i,
    {
        let x = i % 80;
        let y = i / 80;
        if 1 <= x && x < 79 && 1 <= y && y < 42 && map.tiles[i] == TileType::Floor {
            let key = keys[i];
            let ghost before = r@;
            let found = r.remove(&key);
            let mut cells = match found {
                Some(v) => v,
                None => Vec::new(),
            };
            let ghost old_cells = cells@;
            cells.push(i);
            r.insert(key, cells);
            proof {
                assert(r@[key]@ == old_cells.push(i));
                assert forall|k: i32| #[trigger] r@.contains_key(k) implies increasing(r@[k]@) && r@[k]@.len() > 0 by {
                    if k == key {
                        assert forall|a: int, b: int| 0 <= a < b < r@[k]@.len() implies #[trigger] r@[k]@[a]
                            < #[trigger] r@[k]@[b] by {
                            if b == old_cells.len() {
                                if before.contains_key(key) {
                                    assert(r@[k]@[a] == before[key]@[a]);
                                }
                            } else {
                                assert(before.contains_key(key));
                                assert(r@[k]@[a] == before[key]@[a]);
                                assert(r@[k]@[b] == before[key]@[b]);
                            }
                        }
                    } else {
                        assert(r@[k] == before[k]);
                    }
                }
                assert forall|k: i32, a: int|
                    r@.contains_key(k) && 0 <= a < r@[k]@.len() implies #[trigger] r@[k]@[a] < i + 1
                        && keys@[r@[k]@[a] as int] == k && map.tiles@[r@[k]@[a] as int]
                        == TileType::Floor && is_interior(
                        col_of(r@[k]@[a] as int),
                        row_of(r@[k]@[a] as int),
                    ) by {
                    if k == key {
                        if a < old_cells.len() {
                            assert(before.contains_key(key));
                            assert(r@[k]@[a] == before[key]@[a]);
                        }
                    } else {
                        assert(r@[k] == before[k]);
                    }
                }
                assert forall|c: int|
                    0 <= c < i + 1 && #[trigger] map.tiles@[c] == TileType::Floor && is_interior(
                        col_of(c),
                        row_of(c),
                    ) implies listed(r@, keys@[c], c) by {
                    if c == i {
                        assert(r@[key]@[old_cells.len() as int] == i);
                    } else {
                        assert(listed(before, keys@[c], c));
                        let a = choose|a: int|
                            0 <= a < before[keys@[c]]@.len() && #[trigger] before[keys@[c]]@[a] as int
                                == c;
                        if keys@[c] == key {
                            assert(r@[key]@[a] == before[key]@[a]);
                        } else {
                            assert(r@[keys@[c]] == before[keys@[c]]);
                        }
                    }
                }
            }
        }
        i = i + 1;
    }
    proof {
        assert forall|k1: i32, a: int, k2: i32, b: int|
            r@.contains_key(k1) && r@.contains_key(k2) && 0 <= a < r@[k1]@.len() && 0 <= b
                < r@[k2]@.len() && #[trigger] r@[k1]@[a] == #[trigger] r@[k2]@[b] implies k1 == k2
                && a == b by {
            assert(increasing(r@[k1]@));
            if a < b {
                assert(r@[k1]@[a] < r@[k1]@[b]);
            } else if b < a {
                assert(r@[k1]@[b] < r@[k1]@[a]);
            }
        }
    }
    r
}

/// Cell `i` lies inside one of the first `n` rooms.
pub open spec fn in_earlier_room(rooms: Seq<crate::rect::Rect>, n: int, i: int) -> bool {
    exists|k: int| 0 <= k < n && #[trigger] in_room(rooms[k], i)
}

impl Grid {
    /// One region per room: region `k` lists, in index order, the floor cells inside
    /// room `k` that no earlier room already lists.
    pub fn convert_rooms_to_regions(&mut self)
        requires
            old(self).wf(),
            old(self).rooms@.len() < 0x7fff_ffff,
        ensures
            final(self).wf(),
            final(self).tiles == old(self).tiles,
            final(self).rooms == old(self).rooms,
            final(self).blocked == old(self).blocked,
            final(self).upstairs == old(self).upstairs,
            final(self).depth == old(self).depth,
            regions_partition_floor(final(self).tiles@, final(self).regions@),
            forall|k: i32| #[trigger]
                final(self).regions@.contains_key(k) <==> 0 <= k < final(self).rooms@.len(),
            forall|k: i32, a: int|
                #![trigger final(self).regions@[k]@[a]]
                final(self).regions@.contains_key(k) && 0 <= a < final(self).regions@[k]@.len()
                    ==> in_room(final(self).rooms@[k as int], final(self).regions@[k]@[a] as int)
                    && !in_earlier_room(final(self).rooms@, k as int, final(self).regions@[k]@[a] as int),
            forall|k: int, i: int|
                #![trigger in_room(final(self).rooms@[k], i), final(self).tiles@[i]]
                0 <= k < final(self).rooms@.len() && valid_idx(i) && final(self).tiles@[i] == TileType::Floor
                    && in_room(final(self).rooms@[k], i) && !in_earlier_room(final(self).rooms@, k, i)
                    ==> listed(final(self).regions@, k as i32, i),
    {
        let mut regions: HashMap<i32, Vec<usize>> = HashMap::new();
        let n = self.rooms.len();
        let mut k: usize = 0;
        while k < n
            invariant
                self.wf(),
                self.tiles == old(self).tiles,
                self.rooms == old(self).rooms,
                self.blocked == old(self).blocked,
                self.upstairs == old(self).upstairs,
                self.depth == old(self).depth,
                n == self.rooms@.len(),
                n < 0x7fff_ffff,
                0 <= k <= n,
                forall|k2: i32| #[trigger] regions@.contains_key(k2) <==> 0 <= k2 < k,
                forall|k2: i32, a: int|
                    #![trigger regions@[k2]@[a]]
                    regions@.contains_key(k2) && 0 <= a < regions@[k2]@.len() ==> valid_idx(
                        regions@[k2]@[a] as int,
                    ) && self.tiles@[regions@[k2]@[a] as int] == TileType::Floor && in_room(
                        self.rooms@[k2 as int],
                        regions@[k2]@[a] as int,
                    ) && !in_earlier_room(self.rooms@, k2 as int, regions@[k2]@[a] as int),
                forall|k2: i32| #[trigger] regions@.contains_key(k2) ==> increasing(regions@[k2]@),
                forall|k2: int, i: int|
                    #![trigger in_room(self.rooms@[k2], i), self.tiles@[i]]
                    0 <= k2 < k && valid_idx(i) && self.tiles@[i] == TileType::Floor && in_room(
                        self.rooms@[k2],
                        i,
                    ) && !in_earlier_room(self.rooms@, k2, i) ==> listed(regions@, k2 as i32, i),
            decreases n - k,
        {
            let room = self.rooms[k];
            let mut cells: Vec<usize> = Vec::new();
            let mut i: usize = 0;
            while i < MAP_COUNT
                invariant
                    self.wf(),
                    0 <= i <= MAP_COUNT,
                    k < n == self.rooms@.len(),
                    room == self.rooms@[k as int],
                    forall|a: int|
                        #![trigger cells@[a]]
                        0 <= a < cells@.len() ==> cells@[a] < i && self.tiles@[cells@[a] as int]
                            == TileType::Floor && in_room(room, cells@[a] as int)
                            && !in_earlier_room(self.rooms@, k as int, cells@[a] as int),
                    increasing(cells@),
                    forall|c: int|
                        #![trigger self.tiles@[c]]
                        0 <= c < i && self.tiles@[c] == TileType::Floor && in_room(room, c)
                            && !in_earlier_room(self.rooms@, k as int, c) ==> exists|a: int|
                            0 <= a < cells@.len() && #[trigger] cells@[a] as int == c,
                decreases MAP_COUNT - i,
            {
                if self.tiles[i] == TileType::Floor {
                    let x = (i % 80) as i32;
                    let y = (i / 80) as i32;
                    if room.x1 < x && x <= room.x2 && room.y1 < y && y <= room.y2 {
                        let mut seen = false;
                        let mut j: usize = 0;
                        while j < k
                            invariant
                                0 <= j <= k,
                                k < n == self.rooms@.len(),
                                i < MAP_COUNT,
                                x == col_of(i as int),
                                y == row_of(i as int),
                                seen == exists|k3: int| 0 <= k3 < j && #[trigger] in_room(self.rooms@[k3], i as int),
                            decreases k - j,
                        {
                            let other = self.rooms[j];
                            if other.x1 < x && x <= other.x2 && other.y1 < y && y <= other.y2 {
                                seen = true;
                                assert(in_room(self.rooms@[j as int], i as int));
                            } else {
                                assert(!in_room(self.rooms@[j as int], i as int));
                            }
                            j = j + 1;
                        }
                        if !seen {
                            let ghost old_cells = cells@;
                            cells.push(i);
                            proof {
                                assert forall|c: int|
                                    #![trigger self.tiles@[c]]
                                    0 <= c < i + 1 && self.tiles@[c] == TileType::Floor && in_room(room, c)
                                        && !in_earlier_room(self.rooms@, k as int, c) implies exists|a: int|
                                        0 <= a < cells@.len() && #[trigger] cells@[a] as int == c by {
                                    if c == i {
                                        assert(cells@[old_cells.len() as int] == i);
                                    } else {
                                        let a = choose|a: int|
                                            0 <= a < old_cells.len() && #[trigger] old_cells[a] as int == c;
                                        assert(cells@[a] == old_cells[a]);
                                    }
                                }
                            }
                        }
                    }
                }
                i = i + 1;
            }
            let ghost before = regions@;
            let ghost made = cells@;
            regions.insert(k as i32, cells);
            proof {
                assert forall|k2: int, c: int|
                    #![trigger in_room(self.rooms@[k2], c), self.tiles@[c]]
                    0 <= k2 < k + 1 && valid_idx(c) && self.tiles@[c] == TileType::Floor && in_room(
                        self.rooms@[k2],
                        c,
                    ) && !in_earlier_room(self.rooms@, k2, c) implies listed(regions@, k2 as i32, c) by {
                    if k2 < k {
                        assert(listed(before, k2 as i32, c));
                        assert(regions@[k2 as i32] == before[k2 as i32]);
                    } else {
                        assert(self.tiles@[c] == TileType::Floor);
                        let a = choose|a: int| 0 <= a < made.len() && #[trigger] made[a] as int == c;
                        assert(regions@[k2 as i32]@[a] as int == c);
                    }
                }
            }
            k = k + 1;
        }
        proof {
            assert forall|k1: i32, a: int, k2: i32, b: int|
                regions@.contains_key(k1) && regions@.contains_key(k2) && 0 <= a < regions@[k1]@.len()
                    && 0 <= b < regions@[k2]@.len() && #[trigger] regions@[k1]@[a]
                    == #[trigger] regions@[k2]@[b] implies k1 == k2 && a == b by {
                let c = regions@[k1]@[a] as int;
                if k1 < k2 {
                    assert(in_room(self.rooms@[k1 as int], c));
                    assert(!in_earlier_room(self.rooms@, k2 as int, c));
                } else if k2 < k1 {
                    assert(in_room(self.rooms@[k2 as int], c));
                    assert(!in_earlier_room(self.rooms@, k1 as int, c));
                } else {
                    assert(increasing(regions@[k1]@));
                    if a < b {
                        assert(regions@[k1]@[a] < regions@[k1]@[b]);
                    } else if b < a {
                        assert(regions@[k1]@[b] < regions@[k1]@[a]);
                    }
                }
            }
        }
        self.regions = regions;
    }
}

} // verus!
