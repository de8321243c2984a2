//! Drunkard's walk: random walkers paint floor until a target share is reached.
use rltk::RandomNumberGenerator;
use vstd::prelude::*;

use crate::common::{keeps_all_but_tiles, paint, paint_hits, stagger, walker_range, xy_idx, Symmetry};
use crate::level::{clear_stairs, finalize_level, is_playable};
use crate::map::{count_floor, floor_total, idx_of, Grid, TileType, MAP_COUNT, MAP_HEIGHT, MAP_WIDTH};
use crate::regions::{generate_voronoi_spawn_regions, regions_partition_floor};
use crate::rng::roll_die;
use crate::settings::{desired_floor, desired_floor_tiles, BuilderSettings, DrunkSpawnMode, SettingsError};

verus! {

/// Walkers released at most, whether or not the floor target was reached.
pub const MAX_DIGGERS: u32 = 10000;

/// A walker standing on `p` has painted cell `i`, or stands on it.
pub open spec fn walker_covers(mode: Symmetry, brush: int, p: (int, int), i: int) -> bool {
    paint_hits(mode, brush, p.0, p.1, i) || i == idx_of(p.0, p.1)
}

/// Some walker position of `steps` has painted cell `i` or stood on it.
pub open spec fn dug(mode: Symmetry, brush: int, steps: Seq<(int, int)>, i: int) -> bool {
    exists|k: int| 0 <= k < steps.len() && #[trigger] walker_covers(mode, brush, steps[k], i)
}

/// Every position lies where walkers may stand.
pub open spec fn steps_in_range(steps: Seq<(int, int)>) -> bool {
    forall|k: int| 0 <= k < steps.len() ==> walker_range(#[trigger] steps[k].0, steps[k].1)
}

/// Steps each walker takes: its lifetime, or none for a lifetime below one.
pub open spec fn life_steps(lifetime: i32) -> int {
    if lifetime > 0 {
        lifetime as int
    } else {
        0
    }
}

/// A number of walkers that the builder may release.
pub open spec fn walkers_ran(n: int) -> bool {
    0 <= n <= MAX_DIGGERS
}

/// One step of a walker: paints at `(x, y)` and marks the cell it stands on.
pub fn dig_step(map: &mut Grid, mode: Symmetry, brush_size: i32, x: i32, y: i32)
    requires
        old(map).wf(),
        walker_range(x as int, y as int),
    ensures
        keeps_all_but_tiles(old(map), final(map)),
        forall|i: int|
            #![trigger final(map).tiles@[i]]
            0 <= i < MAP_COUNT ==> final(map).tiles@[i] == if i == idx_of(x as int, y as int) {
                TileType::DownStairs
            } else if paint_hits(mode, brush_size as int, x as int, y as int, i) {
                TileType::Floor
            } else {
                old(map).tiles@[i]
            },
{
    let idx = xy_idx(x, y);
    paint(map, mode, brush_size, x, y);
    map.tiles.set(idx, TileType::DownStairs);
}

/// Builds caverns by releasing random walkers that paint floor.
pub struct DrunkardsWalkBuilder {
    pub map: Grid,
    pub settings: BuilderSettings,
}

/// The walker settings are all given, and the floor share is at most 100 percent.
pub open spec fn drunk_settings_ok(s: BuilderSettings) -> bool {
    &&& s.spawn_mode.is_some()
    &&& s.lifetime.is_some()
    &&& s.floor_percent.is_some()
    &&& s.floor_percent.unwrap() <= 100
    &&& s.symmetry.is_some()
    &&& s.brush_size.is_some()
}

impl DrunkardsWalkBuilder {
    /// The builder is ready to run.
    pub open spec fn wf(&self) -> bool {
        self.map.wf() && drunk_settings_ok(self.settings)
    }

    /// A builder for the given depth: walkers start at the centre, live 400 steps,
    /// and paint with a one-cell brush until half the grid is floor.
    pub fn new(new_depth: i32) -> (r: DrunkardsWalkBuilder)
        ensures
            r.wf(),
            r.map.depth == new_depth,
            r.settings == (BuilderSettings {
                spawn_mode: Some(DrunkSpawnMode::StartingPoint),
                lifetime: Some(400),
                floor_percent: Some(50),
                algorithm: None,
                symmetry: Some(Symmetry::NoSymmetry),
                brush_size: Some(1),
            }),
    {
        DrunkardsWalkBuilder {
            map: Grid::new(new_depth),
            settings: BuilderSettings {
                spawn_mode: Some(DrunkSpawnMode::StartingPoint),
                lifetime: Some(400),
                floor_percent: Some(50),
                algorithm: None,
                symmetry: Some(Symmetry::NoSymmetry),
                brush_size: Some(1),
            },
        }
    }

    /// The builder with new settings, refused where one it needs is missing or the
    /// floor share exceeds 100 percent.
    pub fn with_settings(self, settings: BuilderSettings) -> (r: Result<
        DrunkardsWalkBuilder,
        SettingsError,
    >)
        ensures
            match r {
                Ok(b) => drunk_settings_ok(settings) && b.settings == settings && b.map == self.map,
                Err(e) => !drunk_settings_ok(settings) && (e == SettingsError::FloorPercentTooLarge
                    <==> (settings.spawn_mode.is_some() && settings.lifetime.is_some()
                    && settings.floor_percent.is_some() && settings.symmetry.is_some()
                    && settings.brush_size.is_some())),
            },
    {
        if settings.spawn_mode.is_none() || settings.lifetime.is_none()
            || settings.floor_percent.is_none() || settings.symmetry.is_none()
            || settings.brush_size.is_none() {
            return Err(SettingsError::MissingSetting);
        }
        match settings.floor_percent {
            Some(p) => {
                if p > 100 {
                    return Err(SettingsError::FloorPercentTooLarge);
                }
            },
            None => {},
        }
        Ok(DrunkardsWalkBuilder { map: self.map, settings })
    }

    /// Releases walkers from the centre (or, in random mode, from random cells after
    /// the first) until the floor share is met or `MAX_DIGGERS` walked, then finishes
    /// the level entered at the centre and groups its floor by noise key.
    pub fn build(self, rng: &mut RandomNumberGenerator, noise_keys: &Vec<i32>) -> (r: Grid)
        requires
            self.wf(),
            noise_keys@.len() == MAP_COUNT,
        ensures
            is_playable(&r),
            regions_partition_floor(r.tiles@, r.regions@),
            r.depth == self.map.depth,
            r.upstairs == (40i32, 21i32),
            exists|steps: Seq<(int, int)>|
                #![trigger steps_in_range(steps)]
                {
                    &&& steps_in_range(steps)
                    &&& forall|i: int|
                        #![trigger r.tiles@[i]]
                        0 <= i < MAP_COUNT && r.tiles@[i] == TileType::Floor ==> self.map.tiles@[i]
                            != TileType::Wall || dug(
                            self.settings.symmetry.unwrap(),
                            self.settings.brush_size.unwrap() as int,
                            steps,
                            i,
                        )
                },
            exists|pre: Seq<TileType>, walkers: int, steps: Seq<(int, int)>|
                #![trigger floor_total(pre), walkers_ran(walkers), steps_in_range(steps)]
                {
                    &&& walkers_ran(walkers)
                    &&& steps_in_range(steps)
                    &&& steps.len() == walkers * life_steps(self.settings.lifetime.unwrap())
                    &&& forall|i: int|
                        #![trigger pre[i]]
                        0 <= i < MAP_COUNT && pre[i] != TileType::Wall ==> self.map.tiles@[i] != TileType::Wall
                            || i == idx_of(40, 21) || dug(
                            self.settings.symmetry.unwrap(),
                            self.settings.brush_size.unwrap() as int,
                            steps,
                            i,
                        )
                    &&& (walkers < MAX_DIGGERS ==> floor_total(pre) >= desired_floor(
                        self.settings.floor_percent.unwrap(),
                    ))
                    &&& forall|i: int|
                        #![trigger r.tiles@[i]]
                        0 <= i < MAP_COUNT && r.tiles@[i] == TileType::Floor ==> pre[i] != TileType::Wall
                },
    {
        let mut map = self.map;
        let depth = map.depth;
        let spawn_mode = self.settings.spawn_mode.unwrap();
        let lifetime = self.settings.lifetime.unwrap();
        let symmetry = self.settings.symmetry.unwrap();
        let brush_size = self.settings.brush_size.unwrap();
        let desired = desired_floor_tiles(self.settings.floor_percent.unwrap());
        let start_x = MAP_WIDTH / 2;
        let start_y = MAP_HEIGHT / 2;
        let start_idx = xy_idx(start_x, start_y);
        map.tiles.set(start_idx, TileType::Floor);
        let ghost t0 = self.map.tiles@;
        let ghost b = brush_size as int;
        let ghost mut all: Seq<(int, int)> = Seq::empty();
        let mut floor_count = count_floor(&map.tiles);
        let mut digger_count: u32 = 0;
        while floor_count < desired && digger_count < MAX_DIGGERS
            invariant
                map.wf(),
                map.depth == depth,
                digger_count <= MAX_DIGGERS,
                start_x == 40 && start_y == 21,
                start_idx as int == idx_of(40, 21),
                floor_count == floor_total(map.tiles@),
                lifetime == self.settings.lifetime.unwrap(),
                all.len() == digger_count * life_steps(lifetime),
                desired as int == desired_floor(self.settings.floor_percent.unwrap()),
                b == brush_size as int,
                symmetry == self.settings.symmetry.unwrap(),
                brush_size == self.settings.brush_size.unwrap(),
                forall|k: int| 0 <= k < all.len() ==> walker_range(#[trigger] all[k].0, all[k].1),
                forall|i: int|
                    #![trigger map.tiles@[i]]
                    0 <= i < MAP_COUNT && map.tiles@[i] != TileType::Wall ==> t0[i] != TileType::Wall
                        || i == start_idx || dug(symmetry, b, all, i),
            decreases MAX_DIGGERS - digger_count,
        {
            let mut drunk_x = start_x;
            let mut drunk_y = start_y;
            if spawn_mode == DrunkSpawnMode::Random && digger_count > 0 {
                drunk_x = roll_die(rng, MAP_WIDTH - 3) + 1;
                drunk_y = roll_die(rng, MAP_HEIGHT - 3) + 1;
            }
            let mut drunk_life = lifetime;
            let mut did_something = false;
            let ghost base = all.len();
            while drunk_life > 0
                invariant
                    base == digger_count * life_steps(lifetime),
                    drunk_life <= lifetime,
                    lifetime <= 0 ==> drunk_life == lifetime,
                    all.len() == base + (life_steps(lifetime) - life_steps(drunk_life)),
                    map.wf(),
                    map.depth == depth,
                    walker_range(drunk_x as int, drunk_y as int),
                    b == brush_size as int,
                    forall|k: int| 0 <= k < all.len() ==> walker_range(#[trigger] all[k].0, all[k].1),
                    forall|i: int|
                        #![trigger map.tiles@[i]]
                        0 <= i < MAP_COUNT && map.tiles@[i] != TileType::Wall ==> t0[i] != TileType::Wall
                            || i == start_idx || dug(symmetry, b, all, i),
                decreases drunk_life,
            {
                let drunk_idx = xy_idx(drunk_x, drunk_y);
                if map.tiles[drunk_idx] == TileType::Wall {
                    did_something = true;
                }
                let ghost before = map.tiles@;
                let ghost old_all = all;
                dig_step(&mut map, symmetry, brush_size, drunk_x, drunk_y);
                proof {
                    let p = (drunk_x as int, drunk_y as int);
                    all = all.push(p);
                    assert(all[all.len() - 1] == p);
                    assert forall|i: int|
                        #![trigger map.tiles@[i]]
                        0 <= i < MAP_COUNT && map.tiles@[i] != TileType::Wall implies t0[i] != TileType::Wall
                            || i == start_idx || dug(symmetry, b, all, i) by {
                        if walker_covers(symmetry, b, p, i) {
                            assert(walker_covers(symmetry, b, all[all.len() - 1], i));
                        } else {
                            assert(!walker_covers(symmetry, b, p, i));
                            assert(!paint_hits(symmetry, b, p.0, p.1, i));
                            assert(p.0 == drunk_x as int && p.1 == drunk_y as int);
                            assert(b == brush_size as int);
                            assert(i != idx_of(drunk_x as int, drunk_y as int));
                            assert(!paint_hits(symmetry, brush_size as int, drunk_x as int, drunk_y as int, i));
                            assert(map.tiles@[i] == before[i]);
                            assert(before[i] != TileType::Wall);
                            if dug(symmetry, b, old_all, i) {
                                let k = choose|k: int| 0 <= k < old_all.len() && #[trigger] walker_covers(symmetry, b, old_all[k], i);
                                assert(all[k] == old_all[k]);
                            }
                        }
                    }
                    assert forall|k: int| 0 <= k < all.len() implies walker_range(#[trigger] all[k].0, all[k].1) by {
                        if k < old_all.len() {
                            assert(all[k] == old_all[k]);
                        }
                    }
                }
                let step = stagger(rng, drunk_x, drunk_y);
                drunk_x = step.0;
                drunk_y = step.1;
                drunk_life = drunk_life - 1;
            }
            if did_something {
                map.take_snapshot();
            }
            proof {
                assert((digger_count as int + 1) * life_steps(lifetime) == digger_count * life_steps(lifetime) + life_steps(lifetime)) by (nonlinear_arith);
            }
            digger_count = digger_count + 1;
            clear_stairs(&mut map);
            floor_count = count_floor(&map.tiles);
        }
        let ghost pre = map.tiles@;
        assert(digger_count < MAX_DIGGERS ==> floor_total(pre) >= desired_floor(self.settings.floor_percent.unwrap()));
        finalize_level(&mut map, start_x, start_y, None);
        proof {
            assert(walkers_ran(digger_count as int));
            assert forall|i: int|
                #![trigger map.tiles@[i]]
                0 <= i < MAP_COUNT && map.tiles@[i] == TileType::Floor implies pre[i] != TileType::Wall by {
                let pr = crate::level::prepared(pre, idx_of(40, 21));
                assert(pr[i] == crate::level::prepared_tile(pre, idx_of(40, 21), i));
            }
            assert(steps_in_range(all));
            assert forall|i: int|
                #![trigger map.tiles@[i]]
                0 <= i < MAP_COUNT && map.tiles@[i] == TileType::Floor implies t0[i] != TileType::Wall || dug(
                    symmetry,
                    b,
                    all,
                    i,
                ) by {
                let pr = crate::level::prepared(pre, idx_of(40, 21));
                assert(pr[i] == crate::level::prepared_tile(pre, idx_of(40, 21), i));
            }
        }
        map.take_snapshot();
        map.regions = generate_voronoi_spawn_regions(&map, noise_keys);
        map
    }
}

} // verus!
