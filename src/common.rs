//! Helpers shared by the builders: indexing, carving rooms and tunnels, painting.
use vstd::prelude::*;

use crate::connectivity::{lemma_coords_idx, lemma_idx_coords};
use crate::map::{col_of, idx_of, is_interior, row_of, Grid, TileType, MAP_COUNT, MAP_HEIGHT, MAP_WIDTH};
use crate::rect::Rect;

verus! {

/// Mirroring applied while painting floor.
#[derive(PartialEq, Eq, Structural, Copy, Clone, Debug)]
pub enum Symmetry {
    NoSymmetry,
    Horizontal,
    Vertical,
    Both,
}

/// Index of the cell at column `x`, row `y`, in the row-major tile vector.
pub fn xy_idx(x: i32, y: i32) -> (r: usize)
    requires
        0 <= x < MAP_WIDTH,
        0 <= y < MAP_HEIGHT,
    ensures
        r as int == idx_of(x as int, y as int),
        r < MAP_COUNT,
{
    (y as usize) * 80 + (x as usize)
}

/// Carving changed nothing but the tiles.
pub open spec fn keeps_all_but_tiles(a: &Grid, b: &Grid) -> bool {
    &&& b.wf()
    &&& b.rooms == a.rooms
    &&& b.regions == a.regions
    &&& b.blocked == a.blocked
    &&& b.upstairs == a.upstairs
    &&& b.depth == a.depth
    &&& b.show_history == a.show_history
    &&& b.revealed_tiles == a.revealed_tiles
    &&& b.visible_tiles == a.visible_tiles
    &&& b.magic_map == a.magic_map
    &&& b.blood_stains == a.blood_stains
    &&& b.history == a.history
    &&& b.history_count == a.history_count
}

/// A snapshot changed nothing but the history.
pub open spec fn keeps_all_but_history(a: &Grid, b: &Grid) -> bool {
    &&& b.wf()
    &&& b.tiles == a.tiles
    &&& b.rooms == a.rooms
    &&& b.regions == a.regions
    &&& b.blocked == a.blocked
    &&& b.upstairs == a.upstairs
    &&& b.depth == a.depth
    &&& b.show_history == a.show_history
    &&& b.revealed_tiles == a.revealed_tiles
    &&& b.visible_tiles == a.visible_tiles
    &&& b.magic_map == a.magic_map
    &&& b.blood_stains == a.blood_stains
    &&& b.history_count == a.history_count
}

/// Cell `i` lies in columns `x_lo..x_hi` and rows `y_lo..y_hi`.
pub open spec fn in_box(i: int, x_lo: int, x_hi: int, y_lo: int, y_hi: int) -> bool {
    x_lo <= col_of(i) < x_hi && y_lo <= row_of(i) < y_hi
}

/// Tiles after turning the cells of a box into floor.
pub open spec fn boxed(t0: Seq<TileType>, i: int, x_lo: int, x_hi: int, y_lo: int, y_hi: int) -> TileType {
    if in_box(i, x_lo, x_hi, y_lo, y_hi) {
        TileType::Floor
    } else {
        t0[i]
    }
}

/// Turns every cell in columns `x_lo..x_hi` and rows `y_lo..y_hi` into floor.
pub fn carve_box(map: &mut Grid, x_lo: i32, x_hi: i32, y_lo: i32, y_hi: i32)
    requires
        old(map).wf(),
        0 <= x_lo,
        x_hi <= MAP_WIDTH,
        0 <= y_lo,
        y_hi <= MAP_HEIGHT,
    ensures
        keeps_all_but_tiles(old(map), final(map)),
        forall|i: int|
            #![trigger final(map).tiles@[i]]
            0 <= i < MAP_COUNT ==> final(map).tiles@[i] == boxed(
                old(map).tiles@,
                i,
                x_lo as int,
                x_hi as int,
                y_lo as int,
                y_hi as int,
            ),
{
    let ghost t0 = map.tiles@;
    let mut y = y_lo;
    while y < y_hi
        invariant
            keeps_all_but_tiles(old(map), map),
            t0 == old(map).tiles@,
            0 <= x_lo,
            x_hi <= MAP_WIDTH,
            0 <= y_lo,
            y_hi <= MAP_HEIGHT,
            y_lo <= y,
            y <= y_hi || y == y_lo,
            forall|i: int|
                #![trigger map.tiles@[i]]
                0 <= i < MAP_COUNT ==> map.tiles@[i] == boxed(
                    t0,
                    i,
                    x_lo as int,
                    x_hi as int,
                    y_lo as int,
                    y as int,
                ),
        decreases y_hi - y,
    {
        let mut x = x_lo;
        while x < x_hi
            invariant
                keeps_all_but_tiles(old(map), map),
                t0 == old(map).tiles@,
                0 <= x_lo,
                x_hi <= MAP_WIDTH,
                0 <= y_lo <= y < y_hi <= MAP_HEIGHT,
                x_lo <= x,
                x <= x_hi || x == x_lo,
                forall|i: int|
                    #![trigger map.tiles@[i]]
                    0 <= i < MAP_COUNT ==> map.tiles@[i] == if in_box(
                        i,
                        x_lo as int,
                        x_hi as int,
                        y_lo as int,
                        y as int,
                    ) || in_box(i, x_lo as int, x as int, y as int, y as int + 1) {
                        TileType::Floor
                    } else {
                        t0[i]
                    },
            decreases x_hi - x,
        {
            let idx = xy_idx(x, y);
            map.tiles.set(idx, TileType::Floor);
            proof {
                lemma_idx_coords(x as int, y as int);
                assert forall|i: int| 0 <= i < MAP_COUNT implies #[trigger] map.tiles@[i] == if in_box(
                    i,
                    x_lo as int,
                    x_hi as int,
                    y_lo as int,
                    y as int,
                ) || in_box(i, x_lo as int, x as int + 1, y as int, y as int + 1) {
                    TileType::Floor
                } else {
                    t0[i]
                } by {
                    lemma_coords_idx(i);
                }
            }
            x = x + 1;
        }
        proof {
            assert forall|i: int| 0 <= i < MAP_COUNT implies #[trigger] map.tiles@[i] == boxed(
                t0,
                i,
                x_lo as int,
                x_hi as int,
                y_lo as int,
                y as int + 1,
            ) by {
                if in_box(i, x_lo as int, x as int, y as int, y as int + 1) {
                    assert(in_box(i, x_lo as int, x_hi as int, y_lo as int, y as int + 1));
                }
            }
        }
        y = y + 1;
    }
    proof {
        assert forall|i: int| 0 <= i < MAP_COUNT implies #[trigger] map.tiles@[i] == boxed(
            t0,
            i,
            x_lo as int,
            x_hi as int,
            y_lo as int,
            y_hi as int,
        ) by {
            if in_box(i, x_lo as int, x_hi as int, y_lo as int, y as int) {
                assert(in_box(i, x_lo as int, x_hi as int, y_lo as int, y_hi as int));
            }
        }
    }
}

/// Cell `i` lies inside the room: columns `x1 + 1..=x2`, rows `y1 + 1..=y2`.
pub open spec fn in_room(room: Rect, i: int) -> bool {
    in_box(i, room.x1 + 1, room.x2 + 1, room.y1 + 1, room.y2 + 1)
}

/// A room whose inside lies on the grid.
pub open spec fn room_fits(room: Rect) -> bool {
    0 <= room.x1 <= room.x2 < MAP_WIDTH && 0 <= room.y1 <= room.y2 < MAP_HEIGHT
}

/// Writes the inside of a rectangular room into the grid as floor.
pub fn apply_room_to_map(room: &Rect, map: &mut Grid)
    requires
        old(map).wf(),
        room_fits(*room),
    ensures
        keeps_all_but_tiles(old(map), final(map)),
        forall|i: int|
            #![trigger final(map).tiles@[i]]
            0 <= i < MAP_COUNT ==> final(map).tiles@[i] == if in_room(*room, i) {
                TileType::Floor
            } else {
                old(map).tiles@[i]
            },
{
    carve_box(map, room.x1 + 1, room.x2 + 1, room.y1 + 1, room.y2 + 1);
}

/// Writes a corridor along row `y`, from column `x1` to column `x2` inclusive.
pub fn apply_horizontal_tunnel(map: &mut Grid, x1: i32, x2: i32, y: i32)
    requires
        old(map).wf(),
        0 <= x1 < MAP_WIDTH,
        0 <= x2 < MAP_WIDTH,
        0 <= y < MAP_HEIGHT,
    ensures
        keeps_all_but_tiles(old(map), final(map)),
        forall|i: int|
            #![trigger final(map).tiles@[i]]
            0 <= i < MAP_COUNT ==> final(map).tiles@[i] == boxed(
                old(map).tiles@,
                i,
                if x1 <= x2 { x1 as int } else { x2 as int },
                if x1 <= x2 { x2 + 1 } else { x1 + 1 },
                y as int,
                y + 1,
            ),
{
    let lo = if x1 <= x2 { x1 } else { x2 };
    let hi = if x1 <= x2 { x2 } else { x1 };
    carve_box(map, lo, hi + 1, y, y + 1);
}

/// Writes a corridor along column `x`, from row `y1` to row `y2` inclusive.
pub fn apply_vertical_tunnel(map: &mut Grid, y1: i32, y2: i32, x: i32)
    requires
        old(map).wf(),
        0 <= y1 < MAP_HEIGHT,
        0 <= y2 < MAP_HEIGHT,
        0 <= x < MAP_WIDTH,
    ensures
        keeps_all_but_tiles(old(map), final(map)),
        forall|i: int|
            #![trigger final(map).tiles@[i]]
            0 <= i < MAP_COUNT ==> final(map).tiles@[i] == boxed(
                old(map).tiles@,
                i,
                x as int,
                x + 1,
                if y1 <= y2 { y1 as int } else { y2 as int },
                if y1 <= y2 { y2 + 1 } else { y1 + 1 },
            ),
{
    let lo = if y1 <= y2 { y1 } else { y2 };
    let hi = if y1 <= y2 { y2 } else { y1 };
    carve_box(map, x, x + 1, lo, hi + 1);
}

/// Turns every cell of the outer ring into wall and leaves the rest alone.
pub fn make_boundary_walls(map: &mut Grid)
    requires
        old(map).wf(),
    ensures
        keeps_all_but_tiles(old(map), final(map)),
        forall|i: int|
            #![trigger final(map).tiles@[i]]
            0 <= i < MAP_COUNT ==> final(map).tiles@[i] == if crate::map::on_ring(i) {
                TileType::Wall
            } else {
                old(map).tiles@[i]
            },
{
    let mut i: usize = 0;
    while i < MAP_COUNT
        invariant
            keeps_all_but_tiles(old(map), map),
            0 <= i <= MAP_COUNT,
            forall|k: int|
                #![trigger map.tiles@[k]]
                0 <= k < MAP_COUNT ==> map.tiles@[k] == if k < i && crate::map::on_ring(k) {
                    TileType::Wall
                } else {
                    old(map).tiles@[k]
                },
        decreases MAP_COUNT - i,
    {
        let x = i % 80;
        let y = i / 80;
        if x == 0 || x == 79 || y == 0 || y == 42 {
            map.tiles.set(i, TileType::Wall);
        }
        i = i + 1;
    }
}

/// A brush of size `brush` centred on `(cx, cy)` covers cell `i`. Size 1 covers the
/// centre alone where it lies inside the ring; any other size covers columns
/// `cx - brush / 2 .. cx + brush / 2` and the same rows, kept to columns `2..=77` and
/// rows `2..=40`.
pub open spec fn brush_hits(brush: int, cx: int, cy: int, i: int) -> bool {
    if brush == 1 {
        col_of(i) == cx && row_of(i) == cy && is_interior(cx, cy)
    } else {
        let h = brush / 2;
        &&& in_box(i, cx - h, cx + h, cy - h, cy + h)
        &&& 1 < col_of(i) < MAP_WIDTH - 1
        &&& 1 < row_of(i) < MAP_HEIGHT - 1
    }
}

/// Distance between two integers.
pub open spec fn abs_diff(a: int, b: int) -> int {
    if a >= b {
        a - b
    } else {
        b - a
    }
}

/// Painting at `(x, y)` with the given mirroring covers cell `i`: the brush is applied
/// at `(x, y)` and at its mirror images about the grid's centre column and row.
pub open spec fn paint_hits(mode: Symmetry, brush: int, x: int, y: int, i: int) -> bool {
    let cx = MAP_WIDTH / 2;
    let cy = MAP_HEIGHT / 2;
    let dx = abs_diff(cx, x);
    let dy = abs_diff(cy, y);
    match mode {
        Symmetry::NoSymmetry => brush_hits(brush, x, y, i),
        Symmetry::Horizontal => if x == cx {
            brush_hits(brush, x, y, i)
        } else {
            brush_hits(brush, cx + dx, y, i) || brush_hits(brush, cx - dx, y, i)
        },
        Symmetry::Vertical => if y == cy {
            brush_hits(brush, x, y, i)
        } else {
            brush_hits(brush, x, cy + dy, i) || brush_hits(brush, x, cy - dy, i)
        },
        Symmetry::Both => if x == cx && y == cy {
            brush_hits(brush, x, y, i)
        } else {
            brush_hits(brush, cx + dx, y, i) || brush_hits(brush, cx - dx, y, i) || brush_hits(
                brush,
                x,
                cy + dy,
                i,
            ) || brush_hits(brush, x, cy - dy, i)
        },
    }
}

/// Coordinates that painting accepts.
pub open spec fn paint_coord_ok(x: int, y: int) -> bool {
    -1000 <= x <= 1000 && -1000 <= y <= 1000
}

/// Paints floor with a brush of size `brush_size` centred on `(x, y)`.
fn apply_paint(map: &mut Grid, brush_size: i32, x: i32, y: i32)
    requires
        old(map).wf(),
        paint_coord_ok(x as int, y as int),
    ensures
        keeps_all_but_tiles(old(map), final(map)),
        forall|i: int|
            #![trigger final(map).tiles@[i]]
            0 <= i < MAP_COUNT ==> final(map).tiles@[i] == if brush_hits(
                brush_size as int,
                x as int,
                y as int,
                i,
            ) {
                TileType::Floor
            } else {
                old(map).tiles@[i]
            },
{
    if brush_size == 1 {
        if 1 <= x && x < MAP_WIDTH - 1 && 1 <= y && y < MAP_HEIGHT - 1 {
            let idx = xy_idx(x, y);
            map.tiles.set(idx, TileType::Floor);
            proof {
                lemma_idx_coords(x as int, y as int);
                assert forall|i: int| 0 <= i < MAP_COUNT implies #[trigger] map.tiles@[i] == if brush_hits(
                    brush_size as int,
                    x as int,
                    y as int,
                    i,
                ) {
                    TileType::Floor
                } else {
                    old(map).tiles@[i]
                } by {
                    lemma_coords_idx(i);
                }
            }
        }
    } else {
        let h = brush_size / 2;
        let x_lo = if x - h > 2 { x - h } else { 2 };
        let x_hi = if x + h < MAP_WIDTH - 1 { x + h } else { MAP_WIDTH - 1 };
        let y_lo = if y - h > 2 { y - h } else { 2 };
        let y_hi = if y + h < MAP_HEIGHT - 1 { y + h } else { MAP_HEIGHT - 1 };
        carve_box(map, x_lo, x_hi, y_lo, y_hi);
    }
}

/// Paints floor at `(x, y)` and, as `mode` asks, at its mirror images.
pub fn paint(map: &mut Grid, mode: Symmetry, brush_size: i32, x: i32, y: i32)
    requires
        old(map).wf(),
        0 <= x < MAP_WIDTH,
        0 <= y < MAP_HEIGHT,
    ensures
        keeps_all_but_tiles(old(map), final(map)),
        forall|i: int|
            #![trigger final(map).tiles@[i]]
            0 <= i < MAP_COUNT ==> final(map).tiles@[i] == if paint_hits(
                mode,
                brush_size as int,
                x as int,
                y as int,
                i,
            ) {
                TileType::Floor
            } else {
                old(map).tiles@[i]
            },
{
    let center_x = MAP_WIDTH / 2;
    let center_y = MAP_HEIGHT / 2;
    let dist_x = if center_x >= x { center_x - x } else { x - center_x };
    let dist_y = if center_y >= y { center_y - y } else { y - center_y };
    match mode {
        Symmetry::NoSymmetry => apply_paint(map, brush_size, x, y),
        Symmetry::Horizontal => {
            if x == center_x {
                apply_paint(map, brush_size, x, y);
            } else {
                apply_paint(map, brush_size, center_x + dist_x, y);
                apply_paint(map, brush_size, center_x - dist_x, y);
            }
        },
        Symmetry::Vertical => {
            if y == center_y {
                apply_paint(map, brush_size, x, y);
            } else {
                apply_paint(map, brush_size, x, center_y + dist_y);
                apply_paint(map, brush_size, x, center_y - dist_y);
            }
        },
        Symmetry::Both => {
            if x == center_x && y == center_y {
                apply_paint(map, brush_size, x, y);
            } else {
                apply_paint(map, brush_size, center_x + dist_x, y);
                apply_paint(map, brush_size, center_x - dist_x, y);
                apply_paint(map, brush_size, x, center_y + dist_y);
                apply_paint(map, brush_size, x, center_y - dist_y);
            }
        },
    }
}

/// Position after one step in direction `dir` (1 west, 2 east, 3 north, 4 south),
/// where the step stays within columns `2..=78` and rows `2..=41`; else unchanged.
pub open spec fn staggered(dir: int, x: int, y: int) -> (int, int) {
    if dir == 1 {
        if x > 2 {
            (x - 1, y)
        } else {
            (x, y)
        }
    } else if dir == 2 {
        if x < MAP_WIDTH - 2 {
            (x + 1, y)
        } else {
            (x, y)
        }
    } else if dir == 3 {
        if y > 2 {
            (x, y - 1)
        } else {
            (x, y)
        }
    } else {
        if y < MAP_HEIGHT - 2 {
            (x, y + 1)
        } else {
            (x, y)
        }
    }
}

/// Cells that a random walker may stand on.
pub open spec fn walker_range(x: int, y: int) -> bool {
    2 <= x <= MAP_WIDTH - 2 && 2 <= y <= MAP_HEIGHT - 2
}

/// One unbiased random step of a walker.
pub fn stagger(rng: &mut rltk::RandomNumberGenerator, x: i32, y: i32) -> (r: (i32, i32))
    requires
        walker_range(x as int, y as int),
    ensures
        walker_range(r.0 as int, r.1 as int),
        exists|dir: int| 1 <= dir <= 4 && (r.0 as int, r.1 as int) == #[trigger] staggered(dir, x as int, y as int),
{
    let dir = crate::rng::roll_die(rng, 4);
    let mut nx = x;
    let mut ny = y;
    if dir == 1 {
        if nx > 2 {
            nx = nx - 1;
        }
    } else if dir == 2 {
        if nx < MAP_WIDTH - 2 {
            nx = nx + 1;
        }
    } else if dir == 3 {
        if ny > 2 {
            ny = ny - 1;
        }
    } else {
        if ny < MAP_HEIGHT - 2 {
            ny = ny + 1;
        }
    }
    assert((nx as int, ny as int) == staggered(dir as int, x as int, y as int));
    (nx, ny)
}

} // verus!
