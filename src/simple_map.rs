//! Rooms and corridors: non-overlapping rooms joined by L-shaped corridors.
use rltk::RandomNumberGenerator;
use vstd::prelude::*;

use crate::common::{apply_horizontal_tunnel, apply_room_to_map, apply_vertical_tunnel, in_room};
use crate::level::is_playable;
use crate::map::{is_interior, Grid, TileType, MAP_COUNT, MAP_HEIGHT, MAP_WIDTH};
use crate::rect::Rect;
use crate::regions::regions_partition_floor;
use crate::rng::{range_i32, roll_die};

verus! {

/// Rooms tried.
pub const MAX_ROOMS: i32 = 30;

/// Least room size, in cells beyond the corner.
pub const MIN_SIZE: i32 = 6;

/// Room sizes stay below this.
pub const MAX_SIZE: i32 = 10;

/// A room at least two cells across each way, within columns `1..=79` and rows
/// `1..=42`; its centre lies inside the ring.
pub open spec fn room_inside(r: Rect) -> bool {
    1 <= r.x1 < r.x2 <= MAP_WIDTH - 1 && 1 <= r.y1 < r.y2 <= MAP_HEIGHT - 1
}

/// Every room lies inside the ring, and there are few enough to number.
pub open spec fn rooms_inside(rooms: Seq<Rect>) -> bool {
    rooms.len() <= 100000 && forall|k: int| 0 <= k < rooms.len() ==> room_inside(#[trigger] rooms[k])
}

/// The centre of a room inside the ring lies inside the ring.
pub proof fn lemma_center_interior(r: Rect)
    requires
        room_inside(r),
    ensures
        is_interior(r.spec_center().0, r.spec_center().1),
{
}

/// A room this generator samples: 6 to 9 cells beyond its corner each way, within
/// columns `1..=78` and rows `1..=41`.
pub open spec fn sampled_room(r: Rect) -> bool {
    &&& MIN_SIZE <= r.x2 - r.x1 < MAX_SIZE
    &&& MIN_SIZE <= r.y2 - r.y1 < MAX_SIZE
    &&& 1 <= r.x1
    &&& r.x2 <= MAP_WIDTH - 2
    &&& 1 <= r.y1
    &&& r.y2 <= MAP_HEIGHT - 2
}

/// Every cell inside the room is floor.
pub open spec fn room_carved(tiles: Seq<TileType>, r: Rect) -> bool {
    forall|c: int| 0 <= c < MAP_COUNT && #[trigger] in_room(r, c) ==> tiles[c] == TileType::Floor
}

/// Samples up to `MAX_ROOMS` rooms, keeps each that overlaps no kept room, carves it
/// and joins its centre to the previous room's centre by an L-shaped corridor whose
/// leg order a coin decides; enters at the first room's centre.
pub fn rooms_and_corridors(map: &mut Grid, rng: &mut RandomNumberGenerator)
    requires
        old(map).wf(),
        rooms_inside(old(map).rooms@),
        old(map).rooms@.len() <= 1000,
    ensures
        final(map).wf(),
        rooms_inside(final(map).rooms@),
        final(map).rooms@.len() >= 1,
        final(map).depth == old(map).depth,
        final(map).rooms@.subrange(0, old(map).rooms@.len() as int) == old(map).rooms@,
        forall|i: int, j: int|
            #![trigger final(map).rooms@[j], final(map).rooms@[i]]
            0 <= i < j < final(map).rooms@.len() && j >= old(map).rooms@.len() ==> !final(map).rooms@[j].spec_intersect(&final(map).rooms@[i]),
        final(map).rooms@.len() <= old(map).rooms@.len() + MAX_ROOMS,
        forall|k: int|
            old(map).rooms@.len() <= k < final(map).rooms@.len() ==> sampled_room(#[trigger] final(map).rooms@[k])
                && room_carved(final(map).tiles@, final(map).rooms@[k]),
{
    let mut i: i32 = 0;
    while i < MAX_ROOMS
        invariant
            map.wf(),
            rooms_inside(map.rooms@),
            map.rooms@.len() <= old(map).rooms@.len() + i,
            i > 0 ==> map.rooms@.len() >= 1,
            map.depth == old(map).depth,
            0 <= i <= MAX_ROOMS,
            old(map).rooms@.len() <= 1000,
            old(map).rooms@.len() <= map.rooms@.len(),
            map.rooms@.subrange(0, old(map).rooms@.len() as int) == old(map).rooms@,
            forall|i2: int, j2: int|
                #![trigger map.rooms@[j2], map.rooms@[i2]]
                0 <= i2 < j2 < map.rooms@.len() && j2 >= old(map).rooms@.len() ==> !map.rooms@[j2].spec_intersect(&map.rooms@[i2]),
            forall|k: int|
                old(map).rooms@.len() <= k < map.rooms@.len() ==> sampled_room(#[trigger] map.rooms@[k])
                    && room_carved(map.tiles@, map.rooms@[k]),
        decreases MAX_ROOMS - i,
    {
        let w = range_i32(rng, MIN_SIZE, MAX_SIZE);
        let h = range_i32(rng, MIN_SIZE, MAX_SIZE);
        let x = roll_die(rng, MAP_WIDTH - w - 2);
        let y = roll_die(rng, MAP_HEIGHT - h - 2);
        let new_room = Rect::new(x, y, w, h);
        let mut ok = true;
        let mut k: usize = 0;
        while k < map.rooms.len()
            invariant
                0 <= k <= map.rooms@.len(),
                ok == forall|k2: int| 0 <= k2 < k ==> !new_room.spec_intersect(&#[trigger] map.rooms@[k2]),
            decreases map.rooms@.len() - k,
        {
            if new_room.intersect(&map.rooms[k]) {
                ok = false;
            }
            k = k + 1;
        }
        if ok {
            assert(sampled_room(new_room));
            let ghost t_before = map.tiles@;
            apply_room_to_map(&new_room, map);
            proof {
                assert forall|k: int|
                    old(map).rooms@.len() <= k < map.rooms@.len() implies room_carved(map.tiles@, #[trigger] map.rooms@[k]) by {
                    assert(room_carved(t_before, map.rooms@[k]));
                }
                assert(room_carved(map.tiles@, new_room));
            }
            map.take_snapshot();
            let n = map.rooms.len();
            if n > 0 {
                let (new_x, new_y) = new_room.center();
                let prev = map.rooms[n - 1];
                let (prev_x, prev_y) = prev.center();
                let ghost t_mid = map.tiles@;
                if range_i32(rng, 0, 2) == 1 {
                    apply_horizontal_tunnel(map, prev_x, new_x, prev_y);
                    apply_vertical_tunnel(map, prev_y, new_y, new_x);
                } else {
                    apply_vertical_tunnel(map, prev_y, new_y, prev_x);
                    apply_horizontal_tunnel(map, prev_x, new_x, new_y);
                }
                map.take_snapshot();
                proof {
                    assert(forall|c: int| 0 <= c < MAP_COUNT && t_mid[c] == TileType::Floor ==> #[trigger] map.tiles@[c] == TileType::Floor);
                    assert forall|k: int|
                        old(map).rooms@.len() <= k < map.rooms@.len() implies room_carved(map.tiles@, #[trigger] map.rooms@[k]) by {
                        assert(room_carved(t_mid, map.rooms@[k]));
                    }
                    assert(room_carved(t_mid, new_room));
                    assert(room_carved(map.tiles@, new_room));
                }
            }
            let ghost before = map.rooms@;
            map.rooms.push(new_room);
            assert(room_inside(new_room));
            assert(map.rooms@.subrange(0, old(map).rooms@.len() as int) =~= before.subrange(0, old(map).rooms@.len() as int));
            assert forall|k: int|
                old(map).rooms@.len() <= k < map.rooms@.len() implies sampled_room(#[trigger] map.rooms@[k])
                    && room_carved(map.tiles@, map.rooms@[k]) by {
                if k < before.len() {
                    assert(map.rooms@[k] == before[k]);
                }
            }
            assert forall|i2: int, j2: int|
                #![trigger map.rooms@[j2], map.rooms@[i2]]
                0 <= i2 < j2 < map.rooms@.len() && j2 >= old(map).rooms@.len() implies !map.rooms@[j2].spec_intersect(&map.rooms@[i2]) by {
                if j2 < before.len() {
                    assert(map.rooms@[j2] == before[j2] && map.rooms@[i2] == before[i2]);
                } else {
                    assert(map.rooms@[i2] == before[i2]);
                }
            }
        }
        i = i + 1;
    }
}

/// Builds a level of rooms joined by corridors.
pub struct SimpleMapBuilder {
    pub map: Grid,
}

impl SimpleMapBuilder {
    /// A builder for the given depth.
    pub fn new(new_depth: i32) -> (r: SimpleMapBuilder)
        ensures
            r.map.wf(),
            r.map.depth == new_depth,
            r.map.rooms@.len() == 0,
    {
        SimpleMapBuilder { map: Grid::new(new_depth) }
    }

    /// Lays out rooms and corridors, enters at the first room's centre, leaves at the
    /// last room's centre, and makes one spawn region per room.
    pub fn build(self, rng: &mut RandomNumberGenerator) -> (r: Grid)
        requires
            self.map.wf(),
            rooms_inside(self.map.rooms@),
            self.map.rooms@.len() <= 1000,
        ensures
            is_playable(&r),
            regions_partition_floor(r.tiles@, r.regions@),
            r.rooms@.len() >= 1,
            r.rooms@.len() <= self.map.rooms@.len() + MAX_ROOMS,
            forall|i: int, j: int|
                0 <= i < MAP_COUNT && 0 <= j < MAP_COUNT && #[trigger] r.tiles@[i] != TileType::Wall
                    && #[trigger] r.tiles@[j] != TileType::Wall ==> crate::connectivity::reachable(r.tiles@, i, j),
            exists|t: Seq<TileType>|
                #[trigger] crate::bsp_dungeon::exit_at_last_room(t, &r) && forall|k: int|
                    self.map.rooms@.len() <= k < r.rooms@.len() ==> room_carved(t, #[trigger] r.rooms@[k]),
            forall|k: int| self.map.rooms@.len() <= k < r.rooms@.len() ==> sampled_room(#[trigger] r.rooms@[k]),
            forall|i: int, j: int|
                #![trigger r.rooms@[j], r.rooms@[i]]
                0 <= i < j < r.rooms@.len() && j >= self.map.rooms@.len() ==> !r.rooms@[j].spec_intersect(&r.rooms@[i]),
            r.upstairs.0 as int == r.rooms@[0].spec_center().0,
            r.upstairs.1 as int == r.rooms@[0].spec_center().1,
            r.depth == self.map.depth,
    {
        let mut map = self.map;
        rooms_and_corridors(&mut map, rng);
        let ghost t = map.tiles@;
        crate::bsp_dungeon::finish_rooms(&mut map);
        assert(crate::bsp_dungeon::exit_at_last_room(t, &map));
        proof {
            crate::level::lemma_open_cells_connected(&map);
        }
        map
    }
}

} // verus!
