//! The orchestrator: draws a generator from the table, runs it, and sometimes
//! resynthesizes the result with wave function collapse.
use rltk::RandomNumberGenerator;
use vstd::prelude::*;

use crate::bsp_dungeon::BSPDungeonBuilder;
use crate::bsp_interior::BSPInteriorBuilder;
use crate::cellular_automata::CellularAutomataBuilder;
use crate::common::Symmetry;
use crate::dla::DLABuilder;
use crate::drunkards_walk::DrunkardsWalkBuilder;
use crate::level::is_playable;
use crate::map::{Grid, MAP_COUNT};
use crate::maze::MazeBuilder;
use crate::random_table::{map_table, map_table_entries, map_table_weights, pick_weighted, weight_sum, BuilderKind};
use crate::regions::regions_partition_floor;
use crate::rng::roll_die;
use crate::settings::{BuilderSettings, DLAAlgorithm, DrunkSpawnMode};
use crate::simple_map::SimpleMapBuilder;
use crate::voronoi::VoronoiBuilder;
use crate::wfc::WaveFunctionCollapseBuilder;

verus! {

/// What every level handed to the game satisfies.
pub open spec fn is_finished_level(g: &Grid, depth: i32) -> bool {
    &&& is_playable(g)
    &&& regions_partition_floor(g.tiles@, g.regions@)
    &&& g.depth == depth
}

/// Drunkard's walk with random restarts.
fn drunkard(
    new_depth: i32,
    lifetime: i32,
    floor_percent: u32,
    symmetry: Symmetry,
    brush_size: i32,
    rng: &mut RandomNumberGenerator,
    noise_keys: &Vec<i32>,
) -> (r: Grid)
    requires
        floor_percent <= 100,
        noise_keys@.len() == MAP_COUNT,
    ensures
        is_finished_level(&r, new_depth),
{
    let settings = BuilderSettings {
        spawn_mode: Some(DrunkSpawnMode::Random),
        lifetime: Some(lifetime),
        floor_percent: Some(floor_percent),
        algorithm: None,
        symmetry: Some(symmetry),
        brush_size: Some(brush_size),
    };
    let b = DrunkardsWalkBuilder { map: Grid::new(new_depth), settings };
    b.build(rng, noise_keys)
}

/// Diffusion-limited aggregation filling a quarter of the grid.
fn aggregation(
    new_depth: i32,
    algorithm: DLAAlgorithm,
    symmetry: Symmetry,
    brush_size: i32,
    rng: &mut RandomNumberGenerator,
    noise_keys: &Vec<i32>,
) -> (r: Grid)
    requires
        noise_keys@.len() == MAP_COUNT,
    ensures
        is_finished_level(&r, new_depth),
{
    let settings = BuilderSettings {
        spawn_mode: None,
        lifetime: None,
        floor_percent: Some(25),
        algorithm: Some(algorithm),
        symmetry: Some(symmetry),
        brush_size: Some(brush_size),
    };
    let b = DLABuilder { map: Grid::new(new_depth), settings };
    b.build(rng, noise_keys)
}

/// Runs the generator of the given kind; `None` where the BSP dungeon generator could
/// place no room, which aborts the level.
pub fn build_of_kind(
    kind: BuilderKind,
    new_depth: i32,
    rng: &mut RandomNumberGenerator,
    noise_keys: &Vec<i32>,
) -> (r: Option<Grid>)
    requires
        noise_keys@.len() == MAP_COUNT,
    ensures
        match r {
            Some(g) => is_finished_level(&g, new_depth),
            None => kind == BuilderKind::BspDungeon,
        },
{
    let g = match kind {
        BuilderKind::SimpleMap => SimpleMapBuilder::new(new_depth).build(rng),
        BuilderKind::BspDungeon => {
            return BSPDungeonBuilder::new(new_depth).build(rng);
        },
        BuilderKind::BspInterior => BSPInteriorBuilder::new(new_depth).build(rng),
        BuilderKind::CellularAutomata => CellularAutomataBuilder::new(new_depth).build(
            rng,
            noise_keys,
        ),
        BuilderKind::DrunkardsOpenArea => DrunkardsWalkBuilder::new(new_depth).build(
            rng,
            noise_keys,
        ),
        BuilderKind::DrunkardsOpenHalls => drunkard(
            new_depth,
            400,
            50,
            Symmetry::NoSymmetry,
            1,
            rng,
            noise_keys,
        ),
        BuilderKind::DrunkardsWindingPassages => drunkard(
            new_depth,
            100,
            40,
            Symmetry::NoSymmetry,
            1,
            rng,
            noise_keys,
        ),
        BuilderKind::DrunkardsFatPassages => drunkard(
            new_depth,
            150,
            45,
            Symmetry::NoSymmetry,
            2,
            rng,
            noise_keys,
        ),
        BuilderKind::DrunkardsFearfulSymmetry => drunkard(
            new_depth,
            100,
            40,
            Symmetry::Both,
            2,
            rng,
            noise_keys,
        ),
        BuilderKind::Maze => MazeBuilder::new(new_depth).build(rng, noise_keys),
        BuilderKind::DlaWalkInwards => aggregation(
            new_depth,
            DLAAlgorithm::WalkInwards,
            Symmetry::NoSymmetry,
            1,
            rng,
            noise_keys,
        ),
        BuilderKind::DlaWalkOutwards => aggregation(
            new_depth,
            DLAAlgorithm::WalkOutwards,
            Symmetry::NoSymmetry,
            2,
            rng,
            noise_keys,
        ),
        BuilderKind::DlaCentralAttractor => aggregation(
            new_depth,
            DLAAlgorithm::CentralAttractor,
            Symmetry::NoSymmetry,
            2,
            rng,
            noise_keys,
        ),
        BuilderKind::DlaInsectoid => aggregation(
            new_depth,
            DLAAlgorithm::CentralAttractor,
            Symmetry::Horizontal,
            2,
            rng,
            noise_keys,
        ),
        BuilderKind::Voronoi => VoronoiBuilder::new(new_depth).build(rng, noise_keys),
    };
    Some(g)
}

/// Kinds whose output wave function collapse may resynthesize.
pub open spec fn spec_wave_possible(kind: BuilderKind) -> bool {
    kind != BuilderKind::SimpleMap && kind != BuilderKind::Maze
}

/// Whether wave function collapse may resynthesize the output of this kind.
pub fn wave_possible(kind: BuilderKind) -> (r: bool)
    ensures
        r == spec_wave_possible(kind),
{
    kind != BuilderKind::SimpleMap && kind != BuilderKind::Maze
}

/// The two choices behind a level: the generator selected by the table roll
/// (`0..39`), and whether wave function collapse resynthesizes its output, which
/// happens exactly when the three-sided die shows 1 and the kind allows it.
pub fn plan_level(table_roll: u64, die: i32) -> (r: (BuilderKind, bool))
    requires
        table_roll < 39,
    ensures
        exists|k: int|
            0 <= k < 15 && #[trigger] weight_sum(map_table_weights(), k) <= table_roll
                < weight_sum(map_table_weights(), k + 1) && r.0
                == map_table_entries()[k].0,
        r.1 == (die == 1 && spec_wave_possible(r.0)),
{
    let table = map_table();
    proof {
        assert(map_table_entries().len() == 15);
        assert(table.view_entries().len() == 15);
        assert(table.weights@.len() == 15);
        assert forall|j: int| 0 <= j < 15 implies table.weights@[j] == map_table_weights()[j] by {
            assert(table.view_entries()[j] == map_table_entries()[j]);
            assert(table.view_entries()[j].1 == table.weights@[j]);
        }
        assert(table.weights@ =~= map_table_weights());
        reveal_with_fuel(weight_sum, 16);
    }
    let k = pick_weighted(&table.weights, table_roll);
    let kind = table.entries[k];
    proof {
        assert(table.view_entries()[k as int] == map_table_entries()[k as int]);
    }
    (kind, die == 1 && wave_possible(kind))
}

/// A finished level for the given depth: a generator drawn from the weighted table,
/// then, with chance one in three and where the kind allows it, resynthesized by wave
/// function collapse (the drawn level is kept where resynthesis fails). `noise_keys`
/// holds the cellular-noise key of every cell, for the organic generators' regions.
/// `None` where the BSP dungeon generator could place no room.
pub fn build_random_map(new_depth: i32, rng: &mut RandomNumberGenerator, noise_keys: &Vec<i32>) -> (r: Option<Grid>)
    requires
        noise_keys@.len() == MAP_COUNT,
    ensures
        match r {
            Some(g) => is_finished_level(&g, new_depth),
            None => true,
        },
{
    let table_roll = (roll_die(rng, 39) - 1) as u64;
    let die = roll_die(rng, 3);
    let (kind, resynthesize) = plan_level(table_roll, die);
    let map = match build_of_kind(kind, new_depth, rng, noise_keys) {
        Some(g) => g,
        None => {
            return None;
        },
    };
    if resynthesize {
        let wfc = WaveFunctionCollapseBuilder::new(new_depth).add(map);
        match wfc.build(rng, noise_keys) {
            Some(g) => {
                return Some(g);
            },
            None => {
                return Some(wfc.map);
            },
        }
    }
    Some(map)
}

} // verus!
