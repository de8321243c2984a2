//! The tile grid that every builder fills and every later stage reads.
use std::collections::HashMap;
use std::collections::HashSet;

use vstd::prelude::*;

use crate::common::xy_idx;
use crate::rect::Rect;

verus! {

/// Width of every level, in tiles.
pub const MAP_WIDTH: i32 = 80;

/// Height of every level, in tiles.
pub const MAP_HEIGHT: i32 = 43;

/// Number of cells of every level.
pub const MAP_COUNT: usize = 3440;

/// The structural kind of one cell.
#[derive(PartialEq, Eq, Structural, Copy, Clone, Debug, Hash)]
pub enum TileType {
    Wall,
    Floor,
    DownStairs,
    UpStairs,
}

/// Number of cells, as a spec value.
pub open spec fn cell_count() -> int {
    MAP_COUNT as int
}

/// Column of a cell index.
pub open spec fn col_of(i: int) -> int {
    i % (MAP_WIDTH as int)
}

/// Row of a cell index.
pub open spec fn row_of(i: int) -> int {
    i / (MAP_WIDTH as int)
}

/// Cell index of a column and row.
pub open spec fn idx_of(x: int, y: int) -> int {
    y * (MAP_WIDTH as int) + x
}

/// The coordinates lie on the grid.
pub open spec fn in_bounds(x: int, y: int) -> bool {
    0 <= x < MAP_WIDTH as int && 0 <= y < MAP_HEIGHT as int
}

/// The coordinates lie strictly inside the outer ring.
pub open spec fn is_interior(x: int, y: int) -> bool {
    1 <= x < MAP_WIDTH as int - 1 && 1 <= y < MAP_HEIGHT as int - 1
}

/// The cell lies on the outer ring.
pub open spec fn on_ring(i: int) -> bool {
    col_of(i) == 0 || col_of(i) == MAP_WIDTH as int - 1 || row_of(i) == 0 || row_of(i)
        == MAP_HEIGHT as int - 1
}

/// Number of cells of a kind in a tile sequence.
pub open spec fn count_kind(tiles: Seq<TileType>, kind: TileType) -> nat {
    tiles.filter(|t: TileType| t == kind).len()
}

/// The generated level: tiles, rooms, spawn regions and per-cell player knowledge.
pub struct Grid {
    pub tiles: Vec<TileType>,
    pub rooms: Vec<Rect>,
    pub regions: HashMap<i32, Vec<usize>>,
    pub blocked: Vec<bool>,
    pub width: i32,
    pub height: i32,
    pub revealed_tiles: Vec<bool>,
    pub visible_tiles: Vec<bool>,
    pub depth: i32,
    pub blood_stains: HashSet<usize>,
    pub magic_map: Vec<bool>,
    pub upstairs: (i32, i32),
    pub history: Vec<Vec<TileType>>,
    pub history_count: usize,
    pub show_history: bool,
}

/// A vector of `n` copies of one value.
fn filled<T: Copy>(value: T, n: usize) -> (r: Vec<T>)
    ensures
        r@.len() == n,
        forall|i: int| 0 <= i < n ==> r@[i] == value,
{
    let mut r: Vec<T> = Vec::with_capacity(n);
    while r.len() < n
        invariant
            r@.len() <= n,
            forall|i: int| 0 <= i < r@.len() ==> r@[i] == value,
        decreases n - r@.len(),
    {
        r.push(value);
    }
    r
}

impl Grid {
    /// The shape every grid keeps: fixed dimensions and per-cell arrays of one length.
    pub open spec fn wf(&self) -> bool {
        &&& self.width == MAP_WIDTH
        &&& self.height == MAP_HEIGHT
        &&& self.tiles@.len() == MAP_COUNT
        &&& self.blocked@.len() == MAP_COUNT
        &&& self.revealed_tiles@.len() == MAP_COUNT
        &&& self.visible_tiles@.len() == MAP_COUNT
        &&& self.magic_map@.len() == MAP_COUNT
    }

    /// A fresh all-wall grid for the given depth, recording no history.
    pub fn new(new_depth: i32) -> (r: Grid)
        ensures
            r.wf(),
            r.depth == new_depth,
            forall|i: int| 0 <= i < MAP_COUNT ==> r.tiles@[i] == TileType::Wall,
            r.rooms@.len() == 0,
            r.regions@ == Map::<i32, Vec<usize>>::empty(),
            r.upstairs == (0i32, 0i32),
            !r.show_history,
            r.history@.len() == 0,
            r.history_count == 0,
            r.blood_stains@ == Set::<usize>::empty(),
            forall|i: int|
                0 <= i < MAP_COUNT ==> !r.blocked@[i] && !r.revealed_tiles@[i] && !r.visible_tiles@[i]
                    && !r.magic_map@[i],
    {
        Grid {
            tiles: filled(TileType::Wall, MAP_COUNT),
            rooms: Vec::new(),
            regions: HashMap::new(),
            blocked: filled(false, MAP_COUNT),
            width: MAP_WIDTH,
            height: MAP_HEIGHT,
            revealed_tiles: filled(false, MAP_COUNT),
            visible_tiles: filled(false, MAP_COUNT),
            depth: new_depth,
            blood_stains: HashSet::new(),
            magic_map: filled(false, MAP_COUNT),
            upstairs: (0, 0),
            history: Vec::new(),
            history_count: 0,
            show_history: false,
        }
    }
}

impl Grid {
    /// Recomputes `blocked`: a cell blocks movement exactly when it is a wall.
    pub fn populate_blocked(&mut self)
        requires
            old(self).wf(),
        ensures
            final(self).wf(),
            final(self).tiles == old(self).tiles,
            forall|i: int|
                0 <= i < MAP_COUNT ==> final(self).blocked@[i] == (final(self).tiles@[i]
                    == TileType::Wall),
            final(self).rooms == old(self).rooms,
            final(self).regions == old(self).regions,
            final(self).upstairs == old(self).upstairs,
            final(self).depth == old(self).depth,
            final(self).show_history == old(self).show_history,
    {
        let mut i: usize = 0;
        while i < MAP_COUNT
            invariant
                self.wf(),
                self.tiles == old(self).tiles,
                self.rooms == old(self).rooms,
                self.regions == old(self).regions,
                self.upstairs == old(self).upstairs,
                self.depth == old(self).depth,
                self.show_history == old(self).show_history,
                forall|k: int| 0 <= k < i ==> self.blocked@[k] == (self.tiles@[k] == TileType::Wall),
            decreases MAP_COUNT - i,
        {
            let b = self.tiles[i] == TileType::Wall;
            self.blocked.set(i, b);
            i = i + 1;
        }
    }
}

/// Number of floor cells in a tile sequence.
pub open spec fn floor_total(s: Seq<TileType>) -> nat
    decreases s.len(),
{
    if s.len() == 0 {
        0
    } else {
        floor_total(s.drop_last()) + if s.last() == TileType::Floor {
            1nat
        } else {
            0nat
        }
    }
}

/// Number of floor cells of the grid.
pub fn count_floor(tiles: &Vec<TileType>) -> (r: usize)
    requires
        tiles@.len() <= MAP_COUNT,
    ensures
        r == floor_total(tiles@),
{
    let mut n: usize = 0;
    let mut i: usize = 0;
    while i < tiles.len()
        invariant
            0 <= i <= tiles@.len() <= MAP_COUNT,
            n == floor_total(tiles@.take(i as int)),
            n <= i,
        decreases tiles@.len() - i,
    {
        assert(tiles@.take(i as int + 1).drop_last() =~= tiles@.take(i as int));
        if tiles[i] == TileType::Floor {
            n = n + 1;
        }
        i = i + 1;
    }
    assert(tiles@.take(tiles@.len() as int) =~= tiles@);
    n
}

impl Grid {
    /// Records a copy of the tiles in the history, when the grid keeps one.
    pub fn take_snapshot(&mut self)
        requires
            old(self).wf(),
        ensures
            crate::common::keeps_all_but_history(old(self), final(self)),
            final(self).history@.len() == old(self).history@.len() + if old(self).show_history {
                1int
            } else {
                0int
            },
    {
        if self.show_history {
            let copy = self.tiles.clone();
            self.history.push(copy);
        }
    }

    /// Steps the history playback: the next snapshot's number, or `None` (and back to
    /// the start) once every snapshot was shown or where no history is kept.
    pub fn get_snapshot(&mut self) -> (r: Option<usize>)
        requires
            old(self).history_count <= old(self).history@.len(),
        ensures
            final(self).tiles == old(self).tiles,
            final(self).history == old(self).history,
            final(self).show_history == old(self).show_history,
            final(self).history_count <= final(self).history@.len(),
            r == if old(self).show_history && old(self).history_count < old(self).history@.len() {
                Some((old(self).history_count + 1) as usize)
            } else {
                None::<usize>
            },
            final(self).history_count == if old(self).show_history && old(self).history_count
                < old(self).history@.len() {
                old(self).history_count + 1
            } else if old(self).show_history {
                0
            } else {
                old(self).history_count as int
            },
    {
        if self.show_history {
            if self.history_count < self.history.len() {
                self.history_count = self.history_count + 1;
                return Some(self.history_count);
            } else {
                self.history_count = 0;
                return None;
            }
        }
        None
    }
}

/// The cell at `(x, y)` lies on the grid, is a wall, and the player has seen it.
pub open spec fn revealed_wall(g: &Grid, x: int, y: int) -> bool {
    in_bounds(x, y) && g.tiles@[idx_of(x, y)] == TileType::Wall && g.revealed_tiles@[idx_of(x, y)]
}

/// Which sides of a wall at `(x, y)` join onto more wall: 1 north, 2 south, 4 west,
/// 8 east, counting the edges of the grid as wall.
pub open spec fn wall_mask(g: &Grid, x: int, y: int) -> int {
    let edges = (if x < 1 { 1int } else { 0int }) + (if x > MAP_WIDTH - 2 { 2int } else { 0int }) + (
    if y < 1 { 4int } else { 0int }) + (if y > MAP_HEIGHT - 2 { 8int } else { 0int });
    let near = if 0 <= x <= MAP_WIDTH - 2 && 1 <= y <= MAP_WIDTH - 2 {
        (if revealed_wall(g, x, y - 1) { 1int } else { 0int }) + (if revealed_wall(g, x, y + 1) {
            2int
        } else {
            0int
        }) + (if revealed_wall(g, x - 1, y) { 4int } else { 0int }) + (if revealed_wall(g, x + 1, y) {
            8int
        } else {
            0int
        })
    } else {
        0int
    };
    edges + near
}

/// The code-page-437 glyph drawn for a wall with the given mask.
pub open spec fn glyph_for_mask(mask: int) -> u16 {
    if mask == 0 {
        9
    } else if mask == 1 || mask == 2 || mask == 3 {
        186
    } else if mask == 4 || mask == 8 || mask == 12 {
        205
    } else if mask == 5 {
        188
    } else if mask == 6 {
        187
    } else if mask == 7 {
        185
    } else if mask == 9 {
        200
    } else if mask == 10 {
        201
    } else if mask == 11 {
        204
    } else if mask == 13 {
        202
    } else if mask == 14 {
        203
    } else if mask == 15 {
        206
    } else {
        35
    }
}

impl Grid {
    /// The entry cell.
    pub fn get_upstairs(&self) -> (r: (i32, i32))
        ensures
            r == self.upstairs,
    {
        self.upstairs
    }

    /// Width and height.
    pub fn dimensions(&self) -> (r: (i32, i32))
        ensures
            r == (self.width, self.height),
    {
        (self.width, self.height)
    }

    /// Whether the cell at `(x, y)` blocks movement.
    pub fn is_blocked(&self, x: i32, y: i32) -> (r: bool)
        requires
            self.wf(),
            in_bounds(x as int, y as int),
        ensures
            r == self.blocked@[idx_of(x as int, y as int)],
    {
        self.blocked[xy_idx(x, y)]
    }

    /// Whether the cell at `(x, y)` was revealed by magic mapping.
    pub fn is_magic_mapped(&self, x: i32, y: i32) -> (r: bool)
        requires
            self.wf(),
            in_bounds(x as int, y as int),
        ensures
            r == self.magic_map@[idx_of(x as int, y as int)],
    {
        self.magic_map[xy_idx(x, y)]
    }

    /// Whether the cell at `(x, y)` blocks sight.
    pub fn is_opaque(&self, idx: usize) -> (r: bool)
        requires
            self.wf(),
            idx < MAP_COUNT,
        ensures
            r == (self.tiles@[idx as int] == TileType::Wall),
    {
        self.tiles[idx] == TileType::Wall
    }

    /// A cell inside the ring may be revealed when it or one of its eight neighbours
    /// does not block movement.
    pub fn is_tile_revealable(&self, x: i32, y: i32) -> (r: bool)
        requires
            self.wf(),
        ensures
            r == (is_interior(x as int, y as int) && exists|dx: int, dy: int|
                -1 <= dx <= 1 && -1 <= dy <= 1 && !#[trigger] self.blocked@[idx_of(x + dx, y + dy)]),
    {
        if x < 1 || x > MAP_WIDTH - 2 || y < 1 || y > MAP_HEIGHT - 2 {
            return false;
        }
        let mut delta_x: i32 = -1;
        while delta_x <= 1
            invariant
                self.wf(),
                is_interior(x as int, y as int),
                -1 <= delta_x <= 2,
                forall|dx: int, dy: int|
                    -1 <= dx < delta_x && -1 <= dy <= 1 ==> #[trigger] self.blocked@[idx_of(x + dx, y + dy)],
            decreases 2 - delta_x,
        {
            let mut delta_y: i32 = -1;
            while delta_y <= 1
                invariant
                    self.wf(),
                    is_interior(x as int, y as int),
                    -1 <= delta_x <= 1,
                    -1 <= delta_y <= 2,
                    forall|dx: int, dy: int|
                        -1 <= dx < delta_x && -1 <= dy <= 1 ==> #[trigger] self.blocked@[idx_of(x + dx, y + dy)],
                    forall|dy: int| -1 <= dy < delta_y ==> #[trigger] self.blocked@[idx_of(x + delta_x, y + dy)],
                decreases 2 - delta_y,
            {
                if !self.is_blocked(x + delta_x, y + delta_y) {
                    return true;
                }
                delta_y = delta_y + 1;
            }
            delta_x = delta_x + 1;
        }
        false
    }

    /// Marks the cell at `(x, y)` magic-mapped, and revealed where it may be revealed.
    pub fn reveal_me(&mut self, x: i32, y: i32)
        requires
            old(self).wf(),
            in_bounds(x as int, y as int),
        ensures
            final(self).wf(),
            final(self).tiles == old(self).tiles,
            final(self).blocked == old(self).blocked,
            final(self).magic_map@ == old(self).magic_map@.update(idx_of(x as int, y as int), true),
            final(self).revealed_tiles@ == if old(self).spec_revealable(x as int, y as int) {
                old(self).revealed_tiles@.update(idx_of(x as int, y as int), true)
            } else {
                old(self).revealed_tiles@
            },
    {
        let idx = xy_idx(x, y);
        if self.is_tile_revealable(x, y) {
            self.revealed_tiles.set(idx, true);
        }
        self.magic_map.set(idx, true);
    }

    /// The cell may be revealed: see `is_tile_revealable`.
    pub open spec fn spec_revealable(&self, x: int, y: int) -> bool {
        is_interior(x, y) && exists|dx: int, dy: int|
            -1 <= dx <= 1 && -1 <= dy <= 1 && !#[trigger] self.blocked@[idx_of(x + dx, y + dy)]
    }

    /// Whether the cell at `(x, y)` lies on the grid, is a wall, and was seen.
    pub fn is_revealed_and_wall(&self, x: i32, y: i32) -> (r: bool)
        requires
            self.wf(),
            -10 <= x <= 100,
            -10 <= y <= 100,
        ensures
            r == revealed_wall(self, x as int, y as int),
    {
        if x < 0 || x >= MAP_WIDTH || y < 0 || y >= MAP_HEIGHT {
            return false;
        }
        let idx = xy_idx(x, y);
        self.tiles[idx] == TileType::Wall && self.revealed_tiles[idx]
    }

    /// The glyph that draws the wall at `(x, y)`, joined to the walls around it.
    pub fn wall_glyph(&self, x: i32, y: i32) -> (r: u16)
        requires
            self.wf(),
            0 <= x < MAP_WIDTH,
            0 <= y < MAP_HEIGHT,
        ensures
            r == glyph_for_mask(wall_mask(self, x as int, y as int)),
    {
        let mut mask: u8 = 0;
        if x < 1 {
            mask = mask + 1;
        }
        if x > MAP_WIDTH - 2 {
            mask = mask + 2;
        }
        if y < 1 {
            mask = mask + 4;
        }
        if y > MAP_HEIGHT - 2 {
            mask = mask + 8;
        }
        if x >= 0 && x <= MAP_WIDTH - 2 && y >= 1 && y <= MAP_WIDTH - 2 {
            if self.is_revealed_and_wall(x, y - 1) {
                mask = mask + 1;
            }
            if self.is_revealed_and_wall(x, y + 1) {
                mask = mask + 2;
            }
            if self.is_revealed_and_wall(x - 1, y) {
                mask = mask + 4;
            }
            if self.is_revealed_and_wall(x + 1, y) {
                mask = mask + 8;
            }
        }
        assert(mask as int == wall_mask(self, x as int, y as int));
        match mask {
            0 => 9,
            1 => 186,
            2 => 186,
            3 => 186,
            4 => 205,
            5 => 188,
            6 => 187,
            7 => 185,
            8 => 205,
            9 => 200,
            10 => 201,
            11 => 204,
            12 => 205,
            13 => 202,
            14 => 203,
            15 => 206,
            _ => 35,
        }
    }
}

} // verus!
