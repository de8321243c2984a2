//! Diffusion-limited aggregation: wandering diggers stick to the growing cave.
use rltk::RandomNumberGenerator;
use vstd::prelude::*;

use crate::common::{paint, paint_hits, stagger, staggered, walker_range, xy_idx, Symmetry};
use crate::level::{finalize_level, is_playable};
use crate::map::{count_floor, floor_total, idx_of, in_bounds, Grid, TileType, MAP_COUNT, MAP_HEIGHT, MAP_WIDTH};
use crate::regions::{generate_voronoi_spawn_regions, regions_partition_floor};
use crate::rng::{bresenham_line, line_cells, roll_die};
use crate::settings::{desired_floor, desired_floor_tiles, BuilderSettings, DLAAlgorithm, SettingsError};

verus! {

/// Diggers released at most, whether or not the floor target was reached.
pub const MAX_DIGGERS: u32 = 10000;

/// Steps one digger takes at most before it is given up without painting.
pub const MAX_WALK_STEPS: u32 = 100000;

/// Builds caves by diffusion-limited aggregation.
pub struct DLABuilder {
    pub map: Grid,
    pub settings: BuilderSettings,
}

/// The aggregation settings are all given, and the floor share is at most 100 percent.
pub open spec fn dla_settings_ok(s: BuilderSettings) -> bool {
    &&& s.floor_percent.is_some()
    &&& s.floor_percent.unwrap() <= 100
    &&& s.algorithm.is_some()
    &&& s.symmetry.is_some()
    &&& s.brush_size.is_some()
}

/// The walker at `(x, y)` stands on a non-wall cell or is one step from one.
pub open spec fn touches_open(tiles: Seq<TileType>, x: int, y: int) -> bool {
    ||| tiles[idx_of(x, y)] != TileType::Wall
    ||| exists|dir: int|
        1 <= dir <= 4 && tiles[idx_of(#[trigger] staggered(dir, x, y).0, staggered(dir, x, y).1)]
            != TileType::Wall
}

/// Where a digger released at a random cell and walking inwards comes to rest, or
/// `None` where it took `MAX_WALK_STEPS` steps without touching floor.
fn walk_inwards(map: &Grid, rng: &mut RandomNumberGenerator) -> (r: Option<(i32, i32)>)
    requires
        map.wf(),
    ensures
        match r {
            Some(p) => walker_range(p.0 as int, p.1 as int) && touches_open(map.tiles@, p.0 as int, p.1 as int),
            None => true,
        },
{
    let mut digger_x = roll_die(rng, MAP_WIDTH - 3) + 1;
    let mut digger_y = roll_die(rng, MAP_HEIGHT - 3) + 1;
    let mut prev_x = digger_x;
    let mut prev_y = digger_y;
    let mut digger_idx = xy_idx(digger_x, digger_y);
    let mut steps: u32 = 0;
    while map.tiles[digger_idx] == TileType::Wall
        invariant_except_break
            map.wf(),
            walker_range(digger_x as int, digger_y as int),
            walker_range(prev_x as int, prev_y as int),
            digger_idx < MAP_COUNT,
            digger_idx as int == idx_of(digger_x as int, digger_y as int),
            steps <= MAX_WALK_STEPS,
            (digger_x == prev_x && digger_y == prev_y) || exists|dir: int|
                1 <= dir <= 4 && (digger_x as int, digger_y as int) == #[trigger] staggered(dir, prev_x as int, prev_y as int),
        ensures
            steps < MAX_WALK_STEPS ==> walker_range(prev_x as int, prev_y as int) && map.tiles@[idx_of(
                digger_x as int,
                digger_y as int,
            )] != TileType::Wall && ((digger_x == prev_x && digger_y == prev_y) || exists|dir: int|
                1 <= dir <= 4 && (digger_x as int, digger_y as int) == #[trigger] staggered(dir, prev_x as int, prev_y as int)),
        decreases MAX_WALK_STEPS - steps,
    {
        if steps == MAX_WALK_STEPS {
            break;
        }
        prev_x = digger_x;
        prev_y = digger_y;
        let step = stagger(rng, digger_x, digger_y);
        digger_x = step.0;
        digger_y = step.1;
        digger_idx = xy_idx(digger_x, digger_y);
        steps = steps + 1;
    }
    if steps < MAX_WALK_STEPS {
        proof {
            if !(digger_x == prev_x && digger_y == prev_y) {
                let dir = choose|dir: int|
                    1 <= dir <= 4 && (digger_x as int, digger_y as int) == #[trigger] staggered(dir, prev_x as int, prev_y as int);
                assert(map.tiles@[idx_of(staggered(dir, prev_x as int, prev_y as int).0, staggered(dir, prev_x as int, prev_y as int).1)] != TileType::Wall);
            }
        }
        Some((prev_x, prev_y))
    } else {
        None
    }
}

/// Where a digger released at the seed and walking outwards first leaves the floor,
/// or `None` where it took `MAX_WALK_STEPS` steps on floor.
fn walk_outwards(map: &Grid, rng: &mut RandomNumberGenerator, start_x: i32, start_y: i32) -> (r:
    Option<(i32, i32)>)
    requires
        map.wf(),
        walker_range(start_x as int, start_y as int),
    ensures
        match r {
            Some(p) => walker_range(p.0 as int, p.1 as int) && map.tiles@[idx_of(p.0 as int, p.1 as int)]
                != TileType::Floor,
            None => true,
        },
{
    let mut digger_x = start_x;
    let mut digger_y = start_y;
    let mut digger_idx = xy_idx(digger_x, digger_y);
    let mut steps: u32 = 0;
    while map.tiles[digger_idx] == TileType::Floor
        invariant_except_break
            map.wf(),
            walker_range(digger_x as int, digger_y as int),
            digger_idx < MAP_COUNT,
            digger_idx as int == idx_of(digger_x as int, digger_y as int),
            steps <= MAX_WALK_STEPS,
        ensures
            steps < MAX_WALK_STEPS ==> walker_range(digger_x as int, digger_y as int)
                && map.tiles@[idx_of(digger_x as int, digger_y as int)] != TileType::Floor,
        decreases MAX_WALK_STEPS - steps,
    {
        if steps == MAX_WALK_STEPS {
            break;
        }
        let step = stagger(rng, digger_x, digger_y);
        digger_x = step.0;
        digger_y = step.1;
        digger_idx = xy_idx(digger_x, digger_y);
        steps = steps + 1;
    }
    if steps < MAX_WALK_STEPS {
        Some((digger_x, digger_y))
    } else {
        None
    }
}

/// Where a digger at `cur` (last at `prev`) that follows `path` from step `k` on
/// comes to rest: the cell it stood on before entering a non-wall cell, before a step
/// that would leave the grid, or when the path ends.
pub open spec fn walk_end(
    tiles: Seq<TileType>,
    path: Seq<(i32, i32)>,
    k: int,
    cur: (int, int),
    prev: (int, int),
) -> (int, int)
    decreases path.len() - k,
{
    if k < 0 || k >= path.len() || !in_bounds(cur.0, cur.1) || tiles[idx_of(cur.0, cur.1)]
        != TileType::Wall || !in_bounds(path[k].0 as int, path[k].1 as int) {
        prev
    } else {
        walk_end(tiles, path, k + 1, (path[k].0 as int, path[k].1 as int), cur)
    }
}

/// Walks a digger from `(x, y)` along `path` while it stands on wall, and returns
/// where it comes to rest (see `walk_end`).
pub fn follow_line(map: &Grid, path: &Vec<(i32, i32)>, x: i32, y: i32) -> (r: (i32, i32))
    requires
        map.wf(),
        in_bounds(x as int, y as int),
    ensures
        (r.0 as int, r.1 as int) == walk_end(map.tiles@, path@, 0, (x as int, y as int), (x as int, y as int)),
        in_bounds(r.0 as int, r.1 as int),
{
    let mut digger_x = x;
    let mut digger_y = y;
    let mut prev_x = x;
    let mut prev_y = y;
    let mut k: usize = 0;
    while k < path.len()
        invariant_except_break
            in_bounds(digger_x as int, digger_y as int),
            in_bounds(prev_x as int, prev_y as int),
            map.wf(),
            k <= path@.len(),
            walk_end(map.tiles@, path@, 0, (x as int, y as int), (x as int, y as int)) == walk_end(
                map.tiles@,
                path@,
                k as int,
                (digger_x as int, digger_y as int),
                (prev_x as int, prev_y as int),
            ),
        ensures
            in_bounds(prev_x as int, prev_y as int),
            walk_end(map.tiles@, path@, 0, (x as int, y as int), (x as int, y as int)) == (
            prev_x as int, prev_y as int),
        decreases path@.len() - k,
    {
        let digger_idx = xy_idx(digger_x, digger_y);
        if map.tiles[digger_idx] != TileType::Wall {
            break;
        }
        let (px, py) = path[k];
        if px < 0 || px >= MAP_WIDTH || py < 0 || py >= MAP_HEIGHT {
            break;
        }
        prev_x = digger_x;
        prev_y = digger_y;
        digger_x = px;
        digger_y = py;
        k = k + 1;
    }
    (prev_x, prev_y)
}

/// Where a digger released at a random cell and walking the straight line toward the
/// seed at `(start_x, start_y)` comes to rest.
pub fn walk_to_center(map: &Grid, rng: &mut RandomNumberGenerator, start_x: i32, start_y: i32) -> (r:
    (i32, i32))
    requires
        map.wf(),
        in_bounds(start_x as int, start_y as int),
    ensures
        in_bounds(r.0 as int, r.1 as int),
        exists|x: int, y: int|
            walker_range(x, y) && (r.0 as int, r.1 as int) == walk_end(
                map.tiles@,
                bresenham_line(x as i32, y as i32, start_x, start_y),
                0,
                (x, y),
                (x, y),
            ),
{
    let digger_x = roll_die(rng, MAP_WIDTH - 3) + 1;
    let digger_y = roll_die(rng, MAP_HEIGHT - 3) + 1;
    let path = line_cells(digger_x, digger_y, start_x, start_y);
    let r = follow_line(map, &path, digger_x, digger_y);
    assert(walker_range(digger_x as int, digger_y as int));
    r
}

/// A number of diggers that the builder may release.
pub open spec fn diggers_ran(n: int) -> bool {
    0 <= n <= MAX_DIGGERS
}

/// Cell `i` belongs to the seed cross around `(40, 21)`.
pub open spec fn in_seed(i: int) -> bool {
    i == idx_of(40, 21) || i == idx_of(39, 21) || i == idx_of(41, 21) || i == idx_of(40, 20) || i == idx_of(40, 22)
}

/// Some painting position of `targets` has painted cell `i`.
pub open spec fn painted_by(mode: Symmetry, brush: int, targets: Seq<(int, int)>, i: int) -> bool {
    exists|k: int| 0 <= k < targets.len() && #[trigger] paint_hits(mode, brush, targets[k].0, targets[k].1, i)
}

/// Every floor cell of `tiles` was open in `t0`, lies in the seed cross, or was
/// painted at one of `targets`.
pub open spec fn floor_from_targets(
    tiles: Seq<TileType>,
    t0: Seq<TileType>,
    mode: Symmetry,
    brush: int,
    targets: Seq<(int, int)>,
) -> bool {
    forall|i: int|
        #![trigger tiles[i]]
        0 <= i < MAP_COUNT && tiles[i] == TileType::Floor ==> t0[i] != TileType::Wall || in_seed(i)
            || painted_by(mode, brush, targets, i)
}

impl DLABuilder {
    /// The builder is ready to run.
    pub open spec fn wf(&self) -> bool {
        self.map.wf() && dla_settings_ok(self.settings)
    }

    /// A builder for the given depth: walk-inwards diggers, a one-cell brush, no
    /// mirroring, until a quarter of the grid is floor.
    pub fn new(new_depth: i32) -> (r: DLABuilder)
        ensures
            r.wf(),
            r.map.depth == new_depth,
            r.settings == (BuilderSettings {
                spawn_mode: None,
                lifetime: None,
                floor_percent: Some(25),
                algorithm: Some(DLAAlgorithm::WalkInwards),
                symmetry: Some(Symmetry::NoSymmetry),
                brush_size: Some(1),
            }),
    {
        DLABuilder {
            map: Grid::new(new_depth),
            settings: BuilderSettings {
                spawn_mode: None,
                lifetime: None,
                floor_percent: Some(25),
                algorithm: Some(DLAAlgorithm::WalkInwards),
                symmetry: Some(Symmetry::NoSymmetry),
                brush_size: Some(1),
            },
        }
    }

    /// The builder with new settings, refused where one it needs is missing or the
    /// floor share exceeds 100 percent.
    pub fn with_settings(self, settings: BuilderSettings) -> (r: Result<DLABuilder, SettingsError>)
        ensures
            match r {
                Ok(b) => dla_settings_ok(settings) && b.settings == settings && b.map == self.map,
                Err(e) => !dla_settings_ok(settings) && (e == SettingsError::FloorPercentTooLarge
                    <==> (settings.floor_percent.is_some() && settings.algorithm.is_some()
                    && settings.symmetry.is_some() && settings.brush_size.is_some())),
            },
    {
        if settings.floor_percent.is_none() || settings.algorithm.is_none()
            || settings.symmetry.is_none() || settings.brush_size.is_none() {
            return Err(SettingsError::MissingSetting);
        }
        match settings.floor_percent {
            Some(p) => {
                if p > 100 {
                    return Err(SettingsError::FloorPercentTooLarge);
                }
            },
            None => {},
        }
        Ok(DLABuilder { map: self.map, settings })
    }

    /// Carves a seed cross at the centre, releases diggers of the configured variant
    /// until the floor share is met or `MAX_DIGGERS` ran, then finishes the level
    /// entered at the centre and groups its floor by noise key.
    pub fn build(self, rng: &mut RandomNumberGenerator, noise_keys: &Vec<i32>) -> (r: Grid)
        requires
            self.wf(),
            noise_keys@.len() == MAP_COUNT,
        ensures
            is_playable(&r),
            regions_partition_floor(r.tiles@, r.regions@),
            r.depth == self.map.depth,
            r.upstairs == (40i32, 21i32),
            exists|targets: Seq<(int, int)>|
                #[trigger] floor_from_targets(
                    r.tiles@,
                    self.map.tiles@,
                    self.settings.symmetry.unwrap(),
                    self.settings.brush_size.unwrap() as int,
                    targets,
                ),
            exists|pre: Seq<TileType>, diggers: int|
                #![trigger floor_total(pre), diggers_ran(diggers)]
                {
                    &&& diggers_ran(diggers)
                    &&& (diggers < MAX_DIGGERS ==> floor_total(pre) >= desired_floor(
                        self.settings.floor_percent.unwrap(),
                    ))
                    &&& forall|i: int|
                        #![trigger r.tiles@[i]]
                        0 <= i < MAP_COUNT && r.tiles@[i] == TileType::Floor ==> pre[i] != TileType::Wall
                },
    {
        let mut map = self.map;
        let depth = map.depth;
        let algorithm = self.settings.algorithm.unwrap();
        let symmetry = self.settings.symmetry.unwrap();
        let brush_size = self.settings.brush_size.unwrap();
        let desired = desired_floor_tiles(self.settings.floor_percent.unwrap());
        let start_x: i32 = MAP_WIDTH / 2;
        let start_y: i32 = MAP_HEIGHT / 2;
        let start_idx = xy_idx(start_x, start_y);
        map.take_snapshot();
        map.tiles.set(start_idx, TileType::Floor);
        map.tiles.set(start_idx - 1, TileType::Floor);
        map.tiles.set(start_idx + 1, TileType::Floor);
        map.tiles.set(start_idx - 80, TileType::Floor);
        map.tiles.set(start_idx + 80, TileType::Floor);
        let ghost t0 = self.map.tiles@;
        let ghost b = brush_size as int;
        let ghost mut all: Seq<(int, int)> = Seq::empty();
        proof {
            assert forall|i: int|
                #![trigger map.tiles@[i]]
                0 <= i < MAP_COUNT && map.tiles@[i] != TileType::Wall implies t0[i] != TileType::Wall || in_seed(i) by {}
        }
        let mut floor_count = count_floor(&map.tiles);
        let mut digger_count: u32 = 0;
        while floor_count < desired && digger_count < MAX_DIGGERS
            invariant
                map.wf(),
                map.depth == depth,
                digger_count <= MAX_DIGGERS,
                start_x == 40 && start_y == 21,
                b == brush_size as int,
                floor_count == floor_total(map.tiles@),
                desired as int == desired_floor(self.settings.floor_percent.unwrap()),
                symmetry == self.settings.symmetry.unwrap(),
                brush_size == self.settings.brush_size.unwrap(),
                forall|i: int|
                    #![trigger map.tiles@[i]]
                    0 <= i < MAP_COUNT && map.tiles@[i] != TileType::Wall ==> t0[i] != TileType::Wall
                        || in_seed(i) || painted_by(symmetry, b, all, i),
            decreases MAX_DIGGERS - digger_count,
        {
            let target = match algorithm {
                DLAAlgorithm::WalkInwards => walk_inwards(&map, rng),
                DLAAlgorithm::WalkOutwards => walk_outwards(&map, rng, start_x, start_y),
                DLAAlgorithm::CentralAttractor => Some(walk_to_center(&map, rng, start_x, start_y)),
            };
            match target {
                Some((x, y)) => {
                    let ghost before = map.tiles@;
                    let ghost old_all = all;
                    paint(&mut map, symmetry, brush_size, x, y);
                    proof {
                        let p = (x as int, y as int);
                        all = all.push(p);
                        assert forall|i: int|
                            #![trigger map.tiles@[i]]
                            0 <= i < MAP_COUNT && map.tiles@[i] != TileType::Wall implies t0[i] != TileType::Wall
                                || in_seed(i) || painted_by(symmetry, b, all, i) by {
                            if paint_hits(symmetry, b, x as int, y as int, i) {
                                assert(all[all.len() - 1] == p);
                                assert(paint_hits(symmetry, b, all[all.len() - 1].0, all[all.len() - 1].1, i));
                            } else {
                                assert(map.tiles@[i] == before[i]);
                                if painted_by(symmetry, b, old_all, i) {
                                    let k = choose|k: int| 0 <= k < old_all.len() && #[trigger] paint_hits(symmetry, b, old_all[k].0, old_all[k].1, i);
                                    assert(all[k] == old_all[k]);
                                }
                            }
                        }
                    }
                },
                None => {},
            }
            map.take_snapshot();
            digger_count = digger_count + 1;
            floor_count = count_floor(&map.tiles);
        }
        let ghost pre = map.tiles@;
        assert(digger_count < MAX_DIGGERS ==> floor_total(pre) >= desired_floor(self.settings.floor_percent.unwrap()));
        finalize_level(&mut map, start_x, start_y, None);
        proof {
            assert(diggers_ran(digger_count as int));
            assert forall|i: int|
                #![trigger map.tiles@[i]]
                0 <= i < MAP_COUNT && map.tiles@[i] == TileType::Floor implies pre[i] != TileType::Wall by {
                let pr = crate::level::prepared(pre, idx_of(40, 21));
                assert(pr[i] == crate::level::prepared_tile(pre, idx_of(40, 21), i));
            }
            assert forall|i: int|
                #![trigger map.tiles@[i]]
                0 <= i < MAP_COUNT && map.tiles@[i] == TileType::Floor implies t0[i] != TileType::Wall || in_seed(i)
                    || painted_by(symmetry, b, all, i) by {
                let pr = crate::level::prepared(pre, idx_of(40, 21));
                assert(pr[i] == crate::level::prepared_tile(pre, idx_of(40, 21), i));
            }
            assert(floor_from_targets(map.tiles@, t0, symmetry, b, all));
        }
        map.take_snapshot();
        map.regions = generate_voronoi_spawn_regions(&map, noise_keys);
        assert(floor_from_targets(map.tiles@, t0, symmetry, b, all));
        map
    }
}

} // verus!
