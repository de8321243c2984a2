//! BSP dungeon: rooms squeezed into repeatedly quartered space, joined left to right.
use rltk::RandomNumberGenerator;
use vstd::prelude::*;

use crate::common::{apply_horizontal_tunnel, apply_room_to_map, apply_vertical_tunnel, in_box, in_room, xy_idx};
use crate::connectivity::{is_distance_map, labelled, valid_idx};
use crate::level::{finalize_level, is_playable, prepared};
use crate::map::{idx_of, Grid, TileType, MAP_COUNT, MAP_HEIGHT, MAP_WIDTH};
use crate::rect::Rect;
use crate::regions::regions_partition_floor;
use crate::rng::roll_die;
use crate::simple_map::{lemma_center_interior, room_carved, room_inside, rooms_inside};

verus! {

/// Placement attempts made.
pub const PLACEMENT_ATTEMPTS: u32 = 240;

/// A rectangle of the space list: at least one cell across each way, within bounds
/// that grow by one per attempt.
pub open spec fn rect_ok(r: Rect, grown: int) -> bool {
    &&& 2 <= r.x1 < r.x2 <= 78 + grown
    &&& 2 <= r.y1 < r.y2 <= 41 + grown
}

/// All rectangles of the list are usable.
pub open spec fn rects_ok(rects: Seq<Rect>, grown: int) -> bool {
    forall|k: int| 0 <= k < rects.len() ==> rect_ok(#[trigger] rects[k], grown)
}

/// The cells of `r` grown by two on each side lie inside the ring and are all wall.
pub open spec fn fits_with_margin(tiles: Seq<TileType>, r: Rect) -> bool {
    &&& 1 <= r.x1 - 2
    &&& r.x2 + 2 <= MAP_WIDTH - 2
    &&& 1 <= r.y1 - 2
    &&& r.y2 + 2 <= MAP_HEIGHT - 2
    &&& forall|i: int|
        #![trigger tiles[i]]
        valid_idx(i) && in_box(i, r.x1 - 2, r.x2 + 3, r.y1 - 2, r.y2 + 3) ==> tiles[i]
            == TileType::Wall
}

/// Two rooms with at least one column or one row of wall between their spans.
pub open spec fn rooms_apart(a: Rect, b: Rect) -> bool {
    a.x2 + 1 < b.x1 || b.x2 + 1 < a.x1 || a.y2 + 1 < b.y1 || b.y2 + 1 < a.y1
}

/// Every two rooms of the list are apart.
pub open spec fn rooms_separated(rooms: Seq<Rect>) -> bool {
    forall|i: int, j: int|
        0 <= i < rooms.len() && 0 <= j < rooms.len() && i != j ==> rooms_apart(#[trigger] rooms[i], #[trigger] rooms[j])
}

/// A carved room and a candidate that fits with its margin are apart.
proof fn lemma_margin_apart(tiles: Seq<TileType>, r: Rect, c: Rect)
    requires
        tiles.len() == MAP_COUNT,
        room_inside(r),
        room_carved(tiles, r),
        fits_with_margin(tiles, c),
        c.x1 <= c.x2,
        c.y1 <= c.y2,
    ensures
        rooms_apart(r, c),
        rooms_apart(c, r),
{
    if !rooms_apart(c, r) {
        let x = if r.x1 + 1 >= c.x1 - 2 { r.x1 + 1 } else { c.x1 - 2 };
        let y = if r.y1 + 1 >= c.y1 - 2 { r.y1 + 1 } else { c.y1 - 2 };
        crate::connectivity::lemma_idx_coords(x as int, y as int);
        let i = idx_of(x as int, y as int);
        assert(in_room(r, i));
        assert(tiles[i] == TileType::Floor);
        assert(in_box(i, c.x1 - 2, c.x2 + 3, c.y1 - 2, c.y2 + 3));
    }
}

/// Builds a dungeon by binary space partition.
pub struct BSPDungeonBuilder {
    pub map: Grid,
    pub rects: Vec<Rect>,
}

/// Whether a room fits at `rect` with a margin of two wall cells all round.
fn is_possible(map: &Grid, rect: Rect) -> (r: bool)
    requires
        map.wf(),
        rect.x1 <= rect.x2 <= 10000,
        rect.y1 <= rect.y2 <= 10000,
        0 <= rect.x1,
        0 <= rect.y1,
    ensures
        r == fits_with_margin(map.tiles@, rect),
{
    if rect.x1 - 2 < 1 || rect.x2 + 2 > MAP_WIDTH - 2 || rect.y1 - 2 < 1 || rect.y2 + 2
        > MAP_HEIGHT - 2 {
        return false;
    }
    let mut can_build = true;
    let mut i: usize = 0;
    while i < MAP_COUNT
        invariant
            map.wf(),
            0 <= i <= MAP_COUNT,
            3 <= rect.x1 <= rect.x2 <= 76,
            3 <= rect.y1 <= rect.y2 <= 39,
            can_build == forall|k: int|
                #![trigger map.tiles@[k]]
                0 <= k < i && in_box(k, rect.x1 - 2, rect.x2 + 3, rect.y1 - 2, rect.y2 + 3)
                    ==> map.tiles@[k] == TileType::Wall,
        decreases MAP_COUNT - i,
    {
        let x = (i % 80) as i32;
        let y = (i / 80) as i32;
        if rect.x1 - 2 <= x && x <= rect.x2 + 2 && rect.y1 - 2 <= y && y <= rect.y2 + 2 {
            if map.tiles[i] != TileType::Wall {
                can_build = false;
            }
        }
        i = i + 1;
    }
    can_build
}

/// A random offset into a span of `span` cells: `0..span`, or 0 for an empty span.
fn offset_in(rng: &mut RandomNumberGenerator, span: i32) -> (r: i32)
    requires
        0 <= span <= 100,
    ensures
        0 <= r,
        r < span || r == 0,
{
    if span >= 1 {
        roll_die(rng, span) - 1
    } else {
        0
    }
}

/// Orders the rooms by their left column, keeping equal ones in their order.
fn sort_by_left(rooms: &mut Vec<Rect>)
    requires
        rooms_inside(old(rooms)@),
    ensures
        rooms_inside(final(rooms)@),
        final(rooms)@.len() == old(rooms)@.len(),
        final(rooms)@.to_multiset() == old(rooms)@.to_multiset(),
        forall|a: int, b: int|
            0 <= a < b < final(rooms)@.len() ==> #[trigger] final(rooms)@[a].x1
                <= #[trigger] final(rooms)@[b].x1,
        rooms_separated(old(rooms)@) ==> rooms_separated(final(rooms)@),
{
    let n = rooms.len();
    let mut i: usize = 1;
    while i < n
        invariant
            rooms_inside(rooms@),
            rooms@.len() == n,
            n == old(rooms)@.len(),
            rooms@.to_multiset() == old(rooms)@.to_multiset(),
            forall|a: int, b: int| 0 <= a < b < i && b < n ==> #[trigger] rooms@[a].x1 <= #[trigger] rooms@[b].x1,
            rooms_separated(old(rooms)@) ==> rooms_separated(rooms@),
        decreases n - i,
    {
        let mut j: usize = i;
        while j > 0 && rooms[j - 1].x1 > rooms[j].x1
            invariant
                rooms_inside(rooms@),
                rooms@.len() == n,
                rooms@.to_multiset() == old(rooms)@.to_multiset(),
                rooms_separated(old(rooms)@) ==> rooms_separated(rooms@),
                0 <= j <= i < n,
                forall|a: int, b: int|
                    0 <= a < b <= i && b != j && a != j ==> #[trigger] rooms@[a].x1 <= #[trigger] rooms@[b].x1,
                forall|b: int| j < b <= i ==> rooms@[j as int].x1 < #[trigger] rooms@[b].x1,
            decreases j,
        {
            let left = rooms[j - 1];
            let right = rooms[j];
            let ghost s0 = rooms@;
            rooms.set(j - 1, right);
            proof {
                vstd::seq_lib::to_multiset_update(s0, j - 1, right);
            }
            let ghost s1 = rooms@;
            rooms.set(j, left);
            proof {
                vstd::seq_lib::to_multiset_update(s1, j as int, left);
                assert(s0.contains(left) && s0.contains(right)) by {
                    assert(s0[j - 1] == left);
                    assert(s0[j as int] == right);
                }
                vstd::seq_lib::to_multiset_contains(s0, left);
                vstd::seq_lib::to_multiset_contains(s0, right);
                let m0 = s0.to_multiset();
                assert(m0.insert(right).remove(left).insert(left).remove(right) =~= m0);
                if rooms_separated(s0) {
                    let sw = |p: int| if p == j - 1 { j as int } else if p == j as int { j - 1 } else { p };
                    assert forall|p: int, q: int|
                        0 <= p < rooms@.len() && 0 <= q < rooms@.len() && p != q implies rooms_apart(
                        #[trigger] rooms@[p],
                        #[trigger] rooms@[q],
                    ) by {
                        assert(rooms@[p] == s0[sw(p)]);
                        assert(rooms@[q] == s0[sw(q)]);
                        assert(rooms_apart(s0[sw(p)], s0[sw(q)]));
                    }
                }
            }
            j = j - 1;
        }
        i = i + 1;
    }
}

impl BSPDungeonBuilder {
    /// A builder for the given depth.
    pub fn new(new_depth: i32) -> (r: BSPDungeonBuilder)
        ensures
            r.map.wf(),
            r.map.depth == new_depth,
            r.map.rooms@.len() == 0,
            r.rects@.len() == 0,
    {
        BSPDungeonBuilder { map: Grid::new(new_depth), rects: Vec::new() }
    }

    /// Adds the four quarters of `rect` to the space list.
    fn add_subrects(&mut self, rect: Rect)
        requires
            2 <= rect.x1 < rect.x2 <= 5000,
            2 <= rect.y1 < rect.y2 <= 5000,
        ensures
            final(self).map == old(self).map,
            final(self).rects@.len() == old(self).rects@.len() + 4,
            forall|k: int| 0 <= k < old(self).rects@.len() ==> final(self).rects@[k] == old(self).rects@[k],
            forall|k: int|
                old(self).rects@.len() <= k < final(self).rects@.len() ==> {
                    let r = #[trigger] final(self).rects@[k];
                    &&& rect.x1 <= r.x1 < r.x2 <= rect.x2 + 1
                    &&& rect.y1 <= r.y1 < r.y2 <= rect.y2 + 1
                },
    {
        let width = rect.x2 - rect.x1;
        let height = rect.y2 - rect.y1;
        let half_width = if width / 2 > 1 { width / 2 } else { 1 };
        let half_height = if height / 2 > 1 { height / 2 } else { 1 };
        self.rects.push(Rect::new(rect.x1, rect.y1, half_width, half_height));
        self.rects.push(Rect::new(rect.x1, rect.y1 + half_height, half_width, half_height));
        self.rects.push(Rect::new(rect.x1 + half_width, rect.y1, half_width, half_height));
        self.rects.push(
            Rect::new(rect.x1 + half_width, rect.y1 + half_height, half_width, half_height),
        );
    }
}

impl BSPDungeonBuilder {
    /// A rectangle of the space list, drawn at random.
    fn get_random_rect(&self, rng: &mut RandomNumberGenerator) -> (r: Rect)
        requires
            1 <= self.rects@.len() < 0x7fff_ffff,
        ensures
            exists|k: int| 0 <= k < self.rects@.len() && r == #[trigger] self.rects@[k],
    {
        if self.rects.len() == 1 {
            return self.rects[0];
        }
        let idx = (roll_die(rng, self.rects.len() as i32) - 1) as usize;
        self.rects[idx]
    }
}

/// A room candidate inside (or slightly beyond) `rect`: 4 to 10 cells across each way,
/// its corner moved by up to five cells.
fn get_random_sub_rect(rect: Rect, rng: &mut RandomNumberGenerator) -> (r: Rect)
    requires
        2 <= rect.x1 < rect.x2 <= 5000,
        2 <= rect.y1 < rect.y2 <= 5000,
    ensures
        rect.x1 <= r.x1 <= rect.x1 + 5,
        rect.y1 <= r.y1 <= rect.y1 + 5,
        r.x1 + 4 <= r.x2 <= r.x1 + 10,
        r.y1 + 4 <= r.y2 <= r.y1 + 10,
{
    let rect_width = rect.x2 - rect.x1;
    let rect_height = rect.y2 - rect.y1;
    let w_roll = roll_die(rng, if rect_width < 10 { rect_width } else { 10 }) - 1;
    let h_roll = roll_die(rng, if rect_height < 10 { rect_height } else { 10 }) - 1;
    let w = (if w_roll > 3 { w_roll } else { 3 }) + 1;
    let h = (if h_roll > 3 { h_roll } else { 3 }) + 1;
    let x1 = rect.x1 + roll_die(rng, 6) - 1;
    let y1 = rect.y1 + roll_die(rng, 6) - 1;
    Rect { x1, y1, x2: x1 + w, y2: y1 + h }
}

/// A corridor from `(x1, y1)` to `(x2, y2)`: along row `y1`, then along column `x2`.
pub fn draw_corridor(map: &mut Grid, x1: i32, y1: i32, x2: i32, y2: i32)
    requires
        old(map).wf(),
        0 <= x1 < MAP_WIDTH,
        0 <= x2 < MAP_WIDTH,
        0 <= y1 < MAP_HEIGHT,
        0 <= y2 < MAP_HEIGHT,
    ensures
        crate::common::keeps_all_but_tiles(old(map), final(map)),
        forall|i: int|
            #![trigger final(map).tiles@[i]]
            valid_idx(i) ==> final(map).tiles@[i] == if in_box(
                i,
                if x1 <= x2 { x1 as int } else { x2 as int },
                if x1 <= x2 { x2 + 1 } else { x1 + 1 },
                y1 as int,
                y1 + 1,
            ) || in_box(
                i,
                x2 as int,
                x2 + 1,
                if y1 <= y2 { y1 as int } else { y2 as int },
                if y1 <= y2 { y2 + 1 } else { y1 + 1 },
            ) {
                TileType::Floor
            } else {
                old(map).tiles@[i]
            },
{
    apply_horizontal_tunnel(map, x1, x2, y1);
    apply_vertical_tunnel(map, y1, y2, x2);
}

/// A random cell of a room: column `x1 + 0..span`, row `y1 + 0..span`.
fn random_cell_of(rng: &mut RandomNumberGenerator, room: Rect) -> (r: (i32, i32))
    requires
        room_inside(room),
    ensures
        room.x1 <= r.0 <= room.x2,
        room.y1 <= r.1 <= room.y2,
{
    let x = room.x1 + offset_in(rng, room.x2 - room.x1);
    let y = room.y1 + offset_in(rng, room.y2 - room.y1);
    (x, y)
}

/// Joins each room to the next by a corridor between random cells of the two.
pub fn connect_rooms(map: &mut Grid, rng: &mut RandomNumberGenerator)
    requires
        old(map).wf(),
        rooms_inside(old(map).rooms@),
    ensures
        final(map).wf(),
        final(map).rooms == old(map).rooms,
        final(map).depth == old(map).depth,
{
    let n = map.rooms.len();
    let mut i: usize = 0;
    while i + 1 < n
        invariant
            map.wf(),
            rooms_inside(map.rooms@),
            n == map.rooms@.len(),
            map.rooms == old(map).rooms,
            map.depth == old(map).depth,
            i <= n,
            n <= 100000,
        decreases n - i,
    {
        let room = map.rooms[i];
        let next_room = map.rooms[i + 1];
        let (start_x, start_y) = random_cell_of(rng, room);
        let (end_x, end_y) = random_cell_of(rng, next_room);
        draw_corridor(map, start_x, start_y, end_x, end_y);
        map.take_snapshot();
        i = i + 1;
    }
}

/// Enters at the first room's centre, leaves at the last room's centre, and makes
/// one spawn region per room.
pub fn finish_rooms(map: &mut Grid)
    requires
        old(map).wf(),
        rooms_inside(old(map).rooms@),
        old(map).rooms@.len() >= 1,
    ensures
        is_playable(final(map)),
        regions_partition_floor(final(map).tiles@, final(map).regions@),
        final(map).rooms == old(map).rooms,
        final(map).upstairs.0 as int == final(map).rooms@[0].spec_center().0,
        final(map).upstairs.1 as int == final(map).rooms@[0].spec_center().1,
        final(map).depth == old(map).depth,
        exit_at_last_room(old(map).tiles@, final(map)),
{
    let first = map.rooms[0];
    let last = map.rooms[map.rooms.len() - 1];
    let (up_x, up_y) = first.center();
    let (down_x, down_y) = last.center();
    let down_idx = xy_idx(down_x, down_y);
    proof {
        lemma_center_interior(first);
    }
    let ghost t = old(map).tiles@;
    finalize_level(map, up_x, up_y, Some(down_idx));
    map.convert_rooms_to_regions();
    proof {
        let up = idx_of(up_x as int, up_y as int);
        let d = choose|d: Seq<u32>|
            #[trigger] is_distance_map(prepared(t, up), up, d) && ((valid_idx(down_idx as int) && down_idx as int != up
                && prepared(t, up)[down_idx as int] == TileType::Floor && labelled(d, down_idx as int))
                ==> map.tiles@[down_idx as int] == TileType::DownStairs);
        assert(is_distance_map(prepared(t, up), up, d));
    }
}

/// The exit lies at the centre of the last room wherever that cell is floor, is not
/// the entry, and can be reached from the entry (labelled by the search over the
/// tiles `t` prepared for the last stage).
pub open spec fn exit_at_last_room(t: Seq<TileType>, g: &Grid) -> bool {
    let up = idx_of(g.rooms@[0].spec_center().0, g.rooms@[0].spec_center().1);
    let last = g.rooms@[g.rooms@.len() - 1];
    let down = idx_of(last.spec_center().0, last.spec_center().1);
    exists|d: Seq<u32>|
        #[trigger] is_distance_map(prepared(t, up), up, d) && ((down != up && prepared(t, up)[down]
            == TileType::Floor && labelled(d, down)) ==> g.tiles@[down] == TileType::DownStairs)
}

impl BSPDungeonBuilder {
    /// Quarters the space up to `PLACEMENT_ATTEMPTS` times, placing a room wherever one
    /// fits with a two-cell margin, orders the rooms by left column, joins neighbours
    /// by corridors and finishes the level; `None` where no room could be placed.
    pub fn build(self, rng: &mut RandomNumberGenerator) -> (r: Option<Grid>)
        requires
            self.map.wf(),
            self.map.rooms@.len() == 0,
        ensures
            match r {
                Some(g) => {
                    &&& rooms_separated(g.rooms@)
                    &&& is_playable(&g)
                    &&& regions_partition_floor(g.tiles@, g.regions@)
                    &&& g.rooms@.len() >= 1
                    &&& g.rooms@.len() <= self.map.rooms@.len() + PLACEMENT_ATTEMPTS
                    &&& exists|t: Seq<TileType>| #[trigger] exit_at_last_room(t, &g)
                    &&& g.depth == self.map.depth
                    &&& forall|a: int, b: int|
                        0 <= a < b < g.rooms@.len() ==> #[trigger] g.rooms@[a].x1 <= #[trigger] g.rooms@[b].x1
                },
                None => self.map.rooms@.len() == 0,
            },
    {
        let mut b = self;
        let depth = b.map.depth;
        let start_rooms = b.map.rooms.len();
        b.rects = Vec::new();
        let first = Rect::new(2, 2, MAP_WIDTH - 5, MAP_HEIGHT - 5);
        b.rects.push(first);
        b.add_subrects(first);
        let mut n_rooms: u32 = 0;
        while n_rooms < PLACEMENT_ATTEMPTS
            invariant
                b.map.wf(),
                b.map.depth == depth,
                rooms_inside(b.map.rooms@),
                start_rooms <= b.map.rooms@.len() <= start_rooms + n_rooms,
                start_rooms <= 1000,
                n_rooms <= PLACEMENT_ATTEMPTS,
                1 <= b.rects@.len() <= 5 + 4 * n_rooms,
                rects_ok(b.rects@, n_rooms as int),
                rooms_separated(b.map.rooms@),
                forall|k: int| 0 <= k < b.map.rooms@.len() ==> room_carved(b.map.tiles@, #[trigger] b.map.rooms@[k]),
            decreases PLACEMENT_ATTEMPTS - n_rooms,
        {
            let rect = b.get_random_rect(rng);
            let candidate = get_random_sub_rect(rect, rng);
            if is_possible(&b.map, candidate) {
                let ghost t_before = b.map.tiles@;
                let ghost r_before = b.map.rooms@;
                proof {
                    assert forall|k: int| 0 <= k < r_before.len() implies rooms_apart(#[trigger] r_before[k], candidate)
                        && rooms_apart(candidate, r_before[k]) by {
                        lemma_margin_apart(t_before, r_before[k], candidate);
                    }
                }
                apply_room_to_map(&candidate, &mut b.map);
                b.map.rooms.push(candidate);
                proof {
                    assert forall|k: int| 0 <= k < b.map.rooms@.len() implies room_carved(b.map.tiles@, #[trigger] b.map.rooms@[k]) by {
                        if k < r_before.len() {
                            assert(b.map.rooms@[k] == r_before[k]);
                            assert(room_carved(t_before, r_before[k]));
                        }
                    }
                    assert forall|p: int, q: int|
                        0 <= p < b.map.rooms@.len() && 0 <= q < b.map.rooms@.len() && p != q implies rooms_apart(
                        #[trigger] b.map.rooms@[p],
                        #[trigger] b.map.rooms@[q],
                    ) by {
                        if p < r_before.len() && q < r_before.len() {
                            assert(b.map.rooms@[p] == r_before[p] && b.map.rooms@[q] == r_before[q]);
                        } else if p < r_before.len() {
                            assert(b.map.rooms@[p] == r_before[p]);
                        } else {
                            assert(b.map.rooms@[q] == r_before[q]);
                        }
                    }
                }
                b.add_subrects(rect);
                b.map.take_snapshot();
            }
            n_rooms = n_rooms + 1;
        }
        if b.map.rooms.len() == 0 {
            return None;
        }
        let mut map = b.map;
        sort_by_left(&mut map.rooms);
        connect_rooms(&mut map, rng);
        let ghost t = map.tiles@;
        finish_rooms(&mut map);
        assert(exit_at_last_room(t, &map));
        Some(map)
    }
}

} // verus!
