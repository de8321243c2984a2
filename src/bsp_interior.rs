//! BSP interior: the whole grid bisected again and again into adjoining rooms.
use rltk::RandomNumberGenerator;
use vstd::prelude::*;

use crate::bsp_dungeon::{connect_rooms, finish_rooms};
use crate::common::carve_box;
use crate::level::is_playable;
use crate::map::Grid;
use crate::rect::Rect;
use crate::regions::regions_partition_floor;
use crate::rng::roll_die;
use crate::simple_map::rooms_inside;

verus! {

/// A part is bisected further only while its halves are wider than this.
pub const MIN_ROOM_SIZE: i32 = 8;

/// A part of the partition: inside columns `1..=79`, rows `1..=42`, at least three
/// cells across each way.
pub open spec fn part_ok(r: Rect) -> bool {
    1 <= r.x1 && r.x1 + 3 <= r.x2 <= 79 && 1 <= r.y1 && r.y1 + 3 <= r.y2 <= 42
}

/// Every part of the list is usable.
pub open spec fn parts_ok(rects: Seq<Rect>) -> bool {
    forall|k: int| 0 <= k < rects.len() ==> part_ok(#[trigger] rects[k])
}

/// Replaces the last part of the list by the two halves of `rect`, split across or
/// down as a die decides, and splits each half again while its halves stay wider
/// than `MIN_ROOM_SIZE`.
fn add_subrects(rects: &mut Vec<Rect>, rect: Rect, rng: &mut RandomNumberGenerator)
    requires
        parts_ok(old(rects)@),
        1 <= rect.x1 && rect.x1 + 8 <= rect.x2 <= 79,
        1 <= rect.y1 && rect.y1 + 8 <= rect.y2 <= 42,
        old(rects)@.len() + (rect.x2 - rect.x1) * (rect.y2 - rect.y1) <= 10000,
    ensures
        parts_ok(final(rects)@),
        final(rects)@.len() <= old(rects)@.len() + (rect.x2 - rect.x1) * (rect.y2 - rect.y1),
    decreases (rect.x2 - rect.x1) + (rect.y2 - rect.y1),
{
    let ghost len0 = rects@.len();
    if rects.len() > 0 {
        rects.pop();
    }
    let width = rect.x2 - rect.x1;
    let height = rect.y2 - rect.y1;
    let half_width = width / 2;
    let half_height = height / 2;
    let split = roll_die(rng, 4);
    if split <= 2 {
        assert((half_width - 1) * height + half_width * height + 2 <= width * height) by (nonlinear_arith)
            requires
                2 * half_width <= width,
                height >= 8,
        ;
        let h1 = Rect::new(rect.x1, rect.y1, half_width - 1, height);
        rects.push(h1);
        if half_width > MIN_ROOM_SIZE {
            add_subrects(rects, h1, rng);
        }
        let ghost mid = rects@.len();
        assert(mid <= len0 + 1 + (half_width - 1) * height);
        let h2 = Rect::new(rect.x1 + half_width, rect.y1, half_width, height);
        rects.push(h2);
        if half_width > MIN_ROOM_SIZE {
            add_subrects(rects, h2, rng);
        }
        assert((half_width - 1) * height + half_width * height + 2 <= width * height) by (nonlinear_arith)
            requires
                2 * half_width <= width,
                height >= 8,
        ;
    } else {
        assert(width * (half_height - 1) + width * half_height + 2 <= width * height) by (nonlinear_arith)
            requires
                2 * half_height <= height,
                width >= 8,
        ;
        let v1 = Rect::new(rect.x1, rect.y1, width, half_height - 1);
        rects.push(v1);
        if half_height > MIN_ROOM_SIZE {
            add_subrects(rects, v1, rng);
        }
        let ghost mid = rects@.len();
        assert(mid <= len0 + 1 + width * (half_height - 1));
        let v2 = Rect::new(rect.x1, rect.y1 + half_height, width, half_height);
        rects.push(v2);
        if half_height > MIN_ROOM_SIZE {
            add_subrects(rects, v2, rng);
        }
        assert(width * (half_height - 1) + width * half_height + 2 <= width * height) by (nonlinear_arith)
            requires
                2 * half_height <= height,
                width >= 8,
        ;
    }
}

/// Builds the inside of a building by binary space partition.
pub struct BSPInteriorBuilder {
    pub map: Grid,
    pub rects: Vec<Rect>,
}

impl BSPInteriorBuilder {
    /// A builder for the given depth.
    pub fn new(new_depth: i32) -> (r: BSPInteriorBuilder)
        ensures
            r.map.wf(),
            r.map.depth == new_depth,
            r.map.rooms@.len() == 0,
            r.rects@.len() == 0,
    {
        BSPInteriorBuilder { map: Grid::new(new_depth), rects: Vec::new() }
    }

    /// Partitions the grid inside the ring, carves each part (its columns `x1..x2` and
    /// rows `y1..y2`) as a room, joins each room to the next by a corridor, enters at
    /// the first room's centre, leaves at the last one's, and makes one region per room.
    pub fn build(self, rng: &mut RandomNumberGenerator) -> (r: Grid)
        requires
            self.map.wf(),
            self.map.rooms@.len() == 0,
        ensures
            is_playable(&r),
            regions_partition_floor(r.tiles@, r.regions@),
            r.rooms@.len() >= 1,
            r.depth == self.map.depth,
            exists|t: Seq<crate::map::TileType>| #[trigger] crate::bsp_dungeon::exit_at_last_room(t, &r),
    {
        let mut b = self;
        let depth = b.map.depth;
        b.rects = Vec::new();
        let first = Rect::new(1, 1, 78, 41);
        b.rects.push(first);
        add_subrects(&mut b.rects, first, rng);
        if b.rects.len() == 0 {
            b.rects.push(first);
        }
        let parts = b.rects.len();
        let mut map = b.map;
        let mut k: usize = 0;
        while k < parts
            invariant
                map.wf(),
                map.depth == depth,
                parts == b.rects@.len(),
                1 <= parts <= 4000,
                parts_ok(b.rects@),
                0 <= k <= parts,
                map.rooms@.len() == k,
                rooms_inside(map.rooms@),
            decreases parts - k,
        {
            let room = b.rects[k];
            map.rooms.push(room);
            carve_box(&mut map, room.x1, room.x2, room.y1, room.y2);
            map.take_snapshot();
            k = k + 1;
        }
        connect_rooms(&mut map, rng);
        let ghost t = map.tiles@;
        finish_rooms(&mut map);
        assert(crate::bsp_dungeon::exit_at_last_room(t, &map));
        map
    }
}

} // verus!
