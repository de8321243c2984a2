use std::collections::VecDeque;

use dungeon_gen::bsp_dungeon::BSPDungeonBuilder;
use dungeon_gen::bsp_interior::BSPInteriorBuilder;
use dungeon_gen::cellular_automata::{automaton_step, CellularAutomataBuilder};
use dungeon_gen::dla::DLABuilder;
use dungeon_gen::drunkards_walk::DrunkardsWalkBuilder;
use dungeon_gen::generate::{build_of_kind, build_random_map, plan_level};
use dungeon_gen::map::{Grid, TileType, MAP_COUNT};
use dungeon_gen::maze::MazeBuilder;
use dungeon_gen::random_table::BuilderKind;
use dungeon_gen::simple_map::SimpleMapBuilder;
use dungeon_gen::voronoi::VoronoiBuilder;
use dungeon_gen::wfc::WaveFunctionCollapseBuilder;
use rltk::RandomNumberGenerator;

fn block_keys() -> Vec<i32> {
    (0..MAP_COUNT)
        .map(|i| (((i % 80) / 10) + ((i / 80) / 10) * 8) as i32)
        .collect()
}

fn walkable(t: TileType) -> bool {
    t != TileType::Wall
}

/// Cells reachable from `start` by eight-way steps over non-wall cells.
fn reach_from(tiles: &[TileType], start: usize) -> Vec<bool> {
    let mut seen = vec![false; tiles.len()];
    let mut queue = VecDeque::new();
    seen[start] = true;
    queue.push_back(start);
    while let Some(i) = queue.pop_front() {
        let x = (i % 80) as i32;
        let y = (i / 80) as i32;
        for dy in -1..=1 {
            for dx in -1..=1 {
                let nx = x + dx;
                let ny = y + dy;
                if (dx != 0 || dy != 0) && nx >= 0 && nx < 80 && ny >= 0 && ny < 43 {
                    let j = (ny * 80 + nx) as usize;
                    if !seen[j] && walkable(tiles[j]) {
                        seen[j] = true;
                        queue.push_back(j);
                    }
                }
            }
        }
    }
    seen
}

/// Checks what every finished level promises.
fn check_level(g: &Grid) {
    assert_eq!(g.tiles.len(), MAP_COUNT);
    let ups: Vec<usize> = (0..MAP_COUNT).filter(|&i| g.tiles[i] == TileType::UpStairs).collect();
    let downs: Vec<usize> = (0..MAP_COUNT).filter(|&i| g.tiles[i] == TileType::DownStairs).collect();
    assert_eq!(ups.len(), 1);
    assert_eq!(downs.len(), 1);
    let up = (g.upstairs.1 * 80 + g.upstairs.0) as usize;
    assert_eq!(ups[0], up);
    let seen = reach_from(&g.tiles, up);
    for i in 0..MAP_COUNT {
        if g.tiles[i] == TileType::Floor {
            assert!(seen[i], "floor cell {} is not reachable", i);
        }
        let x = i % 80;
        let y = i / 80;
        if x == 0 || x == 79 || y == 0 || y == 42 {
            assert_eq!(g.tiles[i], TileType::Wall);
        }
        assert_eq!(g.blocked[i], g.tiles[i] == TileType::Wall);
    }
    assert!(seen[downs[0]]);
    let mut owner = vec![None; MAP_COUNT];
    for (k, cells) in g.regions.iter() {
        for &c in cells {
            assert_eq!(g.tiles[c], TileType::Floor);
            assert!(owner[c].is_none(), "cell {} is in two regions", c);
            owner[c] = Some(*k);
        }
    }
}

#[test]
fn simple_map_has_rooms_and_connected_floor() {
    for seed in 0..5u64 {
        let mut rng = RandomNumberGenerator::seeded(seed);
        let g = SimpleMapBuilder::new(1).build(&mut rng);
        assert!(g.rooms.len() >= 1);
        assert_eq!(g.depth, 1);
        check_level(&g);
        for i in 0..g.rooms.len() {
            for j in (i + 1)..g.rooms.len() {
                assert!(!g.rooms[j].intersect(&g.rooms[i]));
            }
        }
        let first = g.rooms[0].center();
        assert_eq!(g.upstairs, first);
        if g.rooms.len() > 1 {
            let (dx, dy) = g.rooms[g.rooms.len() - 1].center();
            assert_eq!(g.tiles[(dy * 80 + dx) as usize], TileType::DownStairs);
        }
    }
}

#[test]
fn bsp_dungeon_levels_are_playable() {
    let mut rng = RandomNumberGenerator::seeded(7);
    let g = BSPDungeonBuilder::new(2).build(&mut rng).expect("a room fits");
    assert!(g.rooms.len() >= 2);
    for w in g.rooms.windows(2) {
        assert!(w[0].x1 <= w[1].x1);
    }
    check_level(&g);
}

#[test]
fn bsp_interior_levels_are_playable() {
    let mut rng = RandomNumberGenerator::seeded(11);
    let g = BSPInteriorBuilder::new(3).build(&mut rng);
    assert!(g.rooms.len() >= 2);
    check_level(&g);
}

#[test]
fn cellular_automata_levels_are_playable() {
    let mut rng = RandomNumberGenerator::seeded(5);
    let g = CellularAutomataBuilder::new(1).build(&mut rng, &block_keys());
    assert_eq!(g.upstairs.1, 21);
    check_level(&g);
}

#[test]
fn automaton_passes_keep_the_neighbour_rule() {
    let mut rng = RandomNumberGenerator::seeded(1234);
    let mut tiles = vec![TileType::Wall; MAP_COUNT];
    for y in 1..42 {
        for x in 1..79 {
            if rng.roll_dice(1, 100) > 55 {
                tiles[y * 80 + x] = TileType::Floor;
            }
        }
    }
    for _ in 0..15 {
        let next = automaton_step(&tiles);
        for y in 1..42usize {
            for x in 1..79usize {
                let mut walls = 0;
                for dy in [-1i32, 0, 1] {
                    for dx in [-1i32, 0, 1] {
                        if dx != 0 || dy != 0 {
                            let j = ((y as i32 + dy) * 80 + x as i32 + dx) as usize;
                            if tiles[j] == TileType::Wall {
                                walls += 1;
                            }
                        }
                    }
                }
                let expected = if walls > 4 || walls == 0 { TileType::Wall } else { TileType::Floor };
                assert_eq!(next[y * 80 + x], expected);
            }
        }
        tiles = next;
    }
}

#[test]
fn isolated_wall_with_no_wall_neighbours_stays_wall() {
    let mut tiles = vec![TileType::Floor; MAP_COUNT];
    tiles[10 * 80 + 10] = TileType::Wall;
    let next = automaton_step(&tiles);
    assert_eq!(next[10 * 80 + 10], TileType::Wall);
    assert_eq!(next[10 * 80 + 11], TileType::Floor);
    let lonely_floor = 20 * 80 + 20;
    assert_eq!(next[lonely_floor], TileType::Wall);
}

#[test]
fn drunkards_walk_levels_are_playable() {
    let mut rng = RandomNumberGenerator::seeded(3);
    let g = DrunkardsWalkBuilder::new(1).build(&mut rng, &block_keys());
    assert_eq!(g.upstairs, (40, 21));
    check_level(&g);
}

#[test]
fn dla_levels_are_playable() {
    for kind in [
        BuilderKind::DlaWalkInwards,
        BuilderKind::DlaWalkOutwards,
        BuilderKind::DlaCentralAttractor,
        BuilderKind::DlaInsectoid,
    ] {
        let mut rng = RandomNumberGenerator::seeded(9);
        let g = build_of_kind(kind, 4, &mut rng, &block_keys()).unwrap();
        assert_eq!(g.depth, 4);
        check_level(&g);
    }
    let mut rng = RandomNumberGenerator::seeded(10);
    let g = DLABuilder::new(1).build(&mut rng, &block_keys());
    assert_eq!(g.upstairs, (40, 21));
    check_level(&g);
}

#[test]
fn maze_levels_are_playable() {
    let mut rng = RandomNumberGenerator::seeded(21);
    let g = MazeBuilder::new(1).build(&mut rng, &block_keys());
    assert_eq!(g.upstairs, (2, 2));
    check_level(&g);
}

#[test]
fn voronoi_boundary_share_is_bounded_away_from_extremes() {
    let mut rng = RandomNumberGenerator::seeded(64);
    let g = VoronoiBuilder::new(1).build(&mut rng, &block_keys());
    check_level(&g);
    let open = g.tiles.iter().filter(|t| **t != TileType::Wall).count();
    let ratio = open as f64 / MAP_COUNT as f64;
    assert!(ratio > 0.0 && ratio < 1.0, "ratio {}", ratio);
}

#[test]
fn wfc_resynthesis_is_repeatable() {
    let mut rng = RandomNumberGenerator::seeded(77);
    let source = build_of_kind(BuilderKind::CellularAutomata, 1, &mut rng, &block_keys()).unwrap();
    let first = WaveFunctionCollapseBuilder::new(1).add(source).build(&mut rng, &block_keys());
    if let Some(g) = first {
        check_level(&g);
        let second = WaveFunctionCollapseBuilder::new(1).add(g).build(&mut rng, &block_keys());
        if let Some(g2) = second {
            check_level(&g2);
        }
    }
}

#[test]
fn random_levels_are_playable() {
    for seed in 0..12u64 {
        let mut rng = RandomNumberGenerator::seeded(seed);
        if let Some(g) = build_random_map(seed as i32, &mut rng, &block_keys()) {
            assert_eq!(g.depth, seed as i32);
            check_level(&g);
        }
    }
}

#[test]
fn every_kind_builds_a_playable_level() {
    for kind in [
        BuilderKind::SimpleMap,
        BuilderKind::BspDungeon,
        BuilderKind::BspInterior,
        BuilderKind::CellularAutomata,
        BuilderKind::DrunkardsOpenArea,
        BuilderKind::DrunkardsOpenHalls,
        BuilderKind::DrunkardsWindingPassages,
        BuilderKind::DrunkardsFatPassages,
        BuilderKind::DrunkardsFearfulSymmetry,
        BuilderKind::Maze,
        BuilderKind::Voronoi,
    ] {
        let mut rng = RandomNumberGenerator::seeded(42);
        let g = build_of_kind(kind, 2, &mut rng, &block_keys()).expect("a level");
        check_level(&g);
    }
}

#[test]
fn level_plan_follows_table_and_die() {
    assert_eq!(plan_level(0, 1), (BuilderKind::BspDungeon, true));
    assert_eq!(plan_level(3, 2), (BuilderKind::BspDungeon, false));
    assert_eq!(plan_level(4, 1), (BuilderKind::SimpleMap, false));
    assert_eq!(plan_level(29, 1), (BuilderKind::Maze, false));
    assert_eq!(plan_level(21, 1), (BuilderKind::DrunkardsFatPassages, true));
    assert_eq!(plan_level(19, 1), (BuilderKind::DrunkardsWindingPassages, true));
    assert_eq!(plan_level(25, 1), (BuilderKind::DrunkardsFearfulSymmetry, true));
    assert_eq!(plan_level(38, 1), (BuilderKind::Voronoi, true));
    assert_eq!(plan_level(38, 3), (BuilderKind::Voronoi, false));
}
