use dungeon_gen::cellular_automata::CellularAutomataBuilder;
use dungeon_gen::common::{apply_horizontal_tunnel, apply_room_to_map, make_boundary_walls, paint, xy_idx, Symmetry};
use dungeon_gen::connectivity::{distance_map, remove_unreachable_areas_returning_most_distant, UNREACHED};
use dungeon_gen::drunkards_walk::DrunkardsWalkBuilder;
use dungeon_gen::dla::DLABuilder;
use dungeon_gen::lookup_table::LookupTable;
use dungeon_gen::map::{count_floor, Grid, TileType, MAP_COUNT};
use dungeon_gen::maze::{Cell, MazeGrid};
use dungeon_gen::random_table::{map_table, pick_weighted, total_weight, BuilderKind, RandomTable};
use dungeon_gen::rect::Rect;
use dungeon_gen::regions::generate_voronoi_spawn_regions;
use dungeon_gen::settings::{desired_floor_tiles, BuilderSettings, DLAAlgorithm, DrunkSpawnMode, SettingsError};
use dungeon_gen::voronoi::nearest_seed;
use dungeon_gen::wfc::{patterns_to_constraints, resynthesize, solve};
use dungeon_gen::wfc_patterns::build_patterns;
use rltk::RandomNumberGenerator;

#[test]
fn xy_idx_is_row_major() {
    assert_eq!(xy_idx(0, 0), 0);
    assert_eq!(xy_idx(0, 5), 400);
    assert_eq!(xy_idx(79, 42), 3439);
    assert_eq!(xy_idx(3, 2), 163);
}

#[test]
fn rect_center_and_intersection() {
    let a = Rect::new(10, 10, 6, 4);
    assert_eq!((a.x2, a.y2), (16, 14));
    assert_eq!(a.center(), (13, 12));
    let b = Rect::new(16, 14, 3, 3);
    assert!(a.intersect(&b));
    let c = Rect::new(17, 10, 3, 3);
    assert!(!a.intersect(&c));
}

#[test]
fn new_grid_is_walled_and_sized() {
    let g = Grid::new(7);
    assert_eq!(g.dimensions(), (80, 43));
    assert_eq!(g.depth, 7);
    assert!(g.tiles.iter().all(|t| *t == TileType::Wall));
    assert_eq!(g.get_upstairs(), (0, 0));
}

#[test]
fn room_and_tunnel_carving() {
    let mut g = Grid::new(0);
    apply_room_to_map(&Rect::new(2, 2, 3, 2), &mut g);
    assert_eq!(count_floor(&g.tiles), 6);
    assert_eq!(g.tiles[xy_idx(2, 2)], TileType::Wall);
    assert_eq!(g.tiles[xy_idx(3, 3)], TileType::Floor);
    assert_eq!(g.tiles[xy_idx(5, 4)], TileType::Floor);
    apply_horizontal_tunnel(&mut g, 10, 6, 8);
    assert_eq!(count_floor(&g.tiles), 11);
    assert_eq!(g.tiles[xy_idx(6, 8)], TileType::Floor);
}

#[test]
fn distances_use_cardinal_and_diagonal_costs() {
    let mut g = Grid::new(0);
    apply_room_to_map(&Rect::new(0, 0, 5, 5), &mut g);
    let d = distance_map(&g.tiles, xy_idx(1, 1));
    assert_eq!(d[xy_idx(1, 1)], 0);
    assert_eq!(d[xy_idx(2, 1)], 100);
    assert_eq!(d[xy_idx(2, 2)], 145);
    assert_eq!(d[xy_idx(5, 5)], 580);
    assert_eq!(d[xy_idx(5, 1)], 400);
    assert_eq!(d[xy_idx(10, 10)], UNREACHED);
}

#[test]
fn distances_stop_at_the_depth_limit() {
    let mut g = Grid::new(0);
    apply_horizontal_tunnel(&mut g, 1, 78, 5);
    apply_horizontal_tunnel(&mut g, 1, 78, 7);
    let d = distance_map(&g.tiles, xy_idx(1, 5));
    assert_eq!(d[xy_idx(78, 5)], 7700);
    assert_eq!(d[xy_idx(78, 7)], UNREACHED);
}

#[test]
fn pruning_removes_detached_floor_and_finds_far_exit() {
    let mut g = Grid::new(0);
    apply_horizontal_tunnel(&mut g, 2, 20, 5);
    apply_room_to_map(&Rect::new(40, 20, 3, 3), &mut g);
    let exit = remove_unreachable_areas_returning_most_distant(&mut g, xy_idx(2, 5));
    assert_eq!(exit, xy_idx(20, 5));
    assert_eq!(count_floor(&g.tiles), 19);
    assert_eq!(g.tiles[xy_idx(41, 21)], TileType::Wall);
}

#[test]
fn pruning_with_no_other_floor_returns_zero() {
    let mut g = Grid::new(0);
    g.tiles[xy_idx(5, 5)] = TileType::Floor;
    assert_eq!(remove_unreachable_areas_returning_most_distant(&mut g, xy_idx(5, 5)), 0);
}

#[test]
fn available_exits_list_valid_moves() {
    let mut g = Grid::new(0);
    apply_room_to_map(&Rect::new(0, 0, 3, 3), &mut g);
    let exits = g.get_available_exits(xy_idx(1, 1));
    assert_eq!(exits, vec![(xy_idx(2, 1), 100), (xy_idx(1, 2), 100), (xy_idx(2, 2), 145)]);
    assert!(g.is_exit_valid(2, 2));
    assert!(!g.is_exit_valid(0, 2));
}

#[test]
fn boundary_walls_close_the_ring() {
    let mut g = Grid::new(0);
    for t in g.tiles.iter_mut() {
        *t = TileType::Floor;
    }
    make_boundary_walls(&mut g);
    assert_eq!(count_floor(&g.tiles), 78 * 41);
    assert_eq!(g.tiles[xy_idx(0, 5)], TileType::Wall);
    assert_eq!(g.tiles[xy_idx(79, 42)], TileType::Wall);
}

#[test]
fn painting_mirrors_about_the_centre() {
    let mut g = Grid::new(0);
    paint(&mut g, Symmetry::Horizontal, 1, 30, 10);
    assert_eq!(g.tiles[xy_idx(30, 10)], TileType::Floor);
    assert_eq!(g.tiles[xy_idx(50, 10)], TileType::Floor);
    assert_eq!(count_floor(&g.tiles), 2);
    let mut g = Grid::new(0);
    paint(&mut g, Symmetry::Both, 2, 30, 10);
    assert_eq!(count_floor(&g.tiles), 12);
    let mut g = Grid::new(0);
    paint(&mut g, Symmetry::NoSymmetry, 1, 0, 10);
    assert_eq!(count_floor(&g.tiles), 0);
}

#[test]
fn noise_regions_group_floor_by_key() {
    let mut g = Grid::new(0);
    apply_room_to_map(&Rect::new(0, 0, 4, 1), &mut g);
    let keys: Vec<i32> = (0..MAP_COUNT).map(|i| (i % 2) as i32).collect();
    let r = generate_voronoi_spawn_regions(&g, &keys);
    assert_eq!(r.len(), 2);
    assert_eq!(r[&1], vec![xy_idx(1, 1), xy_idx(3, 1)]);
    assert_eq!(r[&0], vec![xy_idx(2, 1), xy_idx(4, 1)]);
}

#[test]
fn room_regions_list_each_cell_once() {
    let mut g = Grid::new(0);
    let a = Rect::new(2, 2, 3, 3);
    let b = Rect::new(4, 4, 3, 3);
    apply_room_to_map(&a, &mut g);
    apply_room_to_map(&b, &mut g);
    g.rooms = vec![a, b];
    g.convert_rooms_to_regions();
    assert_eq!(g.regions[&0].len(), 9);
    assert_eq!(g.regions[&1].len(), 8);
    assert!(!g.regions[&1].contains(&xy_idx(5, 5)));
}

#[test]
fn lookup_table_adds_replaces_and_gets() {
    let t = LookupTable::new()
        .add("orc".to_string(), "o".to_string())
        .add("goblin".to_string(), "g".to_string())
        .add("orc".to_string(), "O".to_string());
    assert_eq!(t.entries.len(), 2);
    assert_eq!(t.get(&"orc".to_string()), Some("O".to_string()));
    assert_eq!(t.get(&"goblin".to_string()), Some("g".to_string()));
    assert_eq!(t.get(&"troll".to_string()), None);
}

#[test]
fn weighted_pick_follows_running_sums() {
    let ws = vec![4u32, 0, 2, 1];
    assert_eq!(total_weight(&ws), 7);
    assert_eq!(pick_weighted(&ws, 0), 0);
    assert_eq!(pick_weighted(&ws, 3), 0);
    assert_eq!(pick_weighted(&ws, 4), 2);
    assert_eq!(pick_weighted(&ws, 5), 2);
    assert_eq!(pick_weighted(&ws, 6), 3);
}

#[test]
fn map_table_holds_fifteen_weighted_kinds() {
    let t = map_table();
    assert_eq!(t.entries.len(), 15);
    assert_eq!(total_weight(&t.weights), 39);
    assert_eq!(t.entries[0], BuilderKind::BspDungeon);
    let mut rng = RandomNumberGenerator::seeded(3);
    assert!(t.roll(&mut rng).is_some());
    let empty = RandomTable::new().add(BuilderKind::Maze, 0);
    assert_eq!(empty.roll(&mut rng), None);
}

#[test]
fn maze_cells_lose_shared_walls() {
    let mut a = Cell::new(3, 4);
    let mut b = Cell::new(3, 5);
    a.remove_walls(&mut b);
    assert!(!a.right && !b.left && a.left && b.right && a.top && b.bottom);
    let mut c = Cell::new(2, 4);
    let mut d = Cell::new(3, 4);
    c.remove_walls(&mut d);
    assert!(!c.bottom && !d.top);
    let mut e = Cell::new(1, 1);
    let mut f = Cell::new(0, 0);
    e.remove_walls(&mut f);
    assert_eq!(e, Cell::new(1, 1));
    assert_eq!(f, Cell::new(0, 0));
    let g = MazeGrid::new(38, 19);
    assert_eq!(g.calculate_index(1, 2), 40);
    assert_eq!(g.calculate_index(-1, 2), -1);
    assert_eq!(g.calculate_index(19, 0), -1);
}

#[test]
fn settings_missing_a_field_are_refused() {
    let full = BuilderSettings {
        spawn_mode: Some(DrunkSpawnMode::Random),
        lifetime: Some(100),
        floor_percent: Some(40),
        algorithm: Some(DLAAlgorithm::WalkInwards),
        symmetry: Some(Symmetry::NoSymmetry),
        brush_size: Some(1),
    };
    assert!(DrunkardsWalkBuilder::new(1).with_settings(full).is_ok());
    let missing = BuilderSettings { lifetime: None, ..full };
    assert_eq!(
        DrunkardsWalkBuilder::new(1).with_settings(missing).err(),
        Some(SettingsError::MissingSetting)
    );
    let too_much = BuilderSettings { floor_percent: Some(101), ..full };
    assert_eq!(
        DLABuilder::new(1).with_settings(too_much).err(),
        Some(SettingsError::FloorPercentTooLarge)
    );
    assert!(DLABuilder::new(1).with_settings(missing).is_ok());
    assert_eq!(desired_floor_tiles(50), 1720);
    assert_eq!(desired_floor_tiles(25), 860);
}

#[test]
fn nearest_seed_prefers_first_of_equals() {
    let seeds = vec![(10, 10), (20, 10), (12, 10)];
    assert_eq!(nearest_seed(&seeds, 15, 10), 2);
    assert_eq!(nearest_seed(&seeds, 16, 10), 1);
    assert_eq!(nearest_seed(&seeds, 11, 10), 0);
    assert_eq!(nearest_seed(&seeds, 0, 0), 0);
}

#[test]
fn reveal_and_glyphs() {
    let mut g = Grid::new(0);
    apply_room_to_map(&Rect::new(4, 4, 3, 3), &mut g);
    g.populate_blocked();
    assert!(g.is_tile_revealable(4, 5));
    assert!(!g.is_tile_revealable(20, 20));
    assert!(!g.is_tile_revealable(0, 5));
    g.reveal_me(4, 5);
    assert!(g.revealed_tiles[xy_idx(4, 5)]);
    assert!(g.is_magic_mapped(4, 5));
    g.reveal_me(20, 20);
    assert!(!g.revealed_tiles[xy_idx(20, 20)]);
    assert!(g.is_magic_mapped(20, 20));
    assert!(g.is_blocked(20, 20));
    assert!(!g.is_blocked(5, 5));
    assert_eq!(g.wall_glyph(20, 20), 9);
    assert_eq!(g.wall_glyph(0, 10), 186);
    g.revealed_tiles[xy_idx(19, 20)] = true;
    g.revealed_tiles[xy_idx(21, 20)] = true;
    assert_eq!(g.wall_glyph(20, 20), 205);
}

#[test]
fn snapshots_are_kept_only_when_asked() {
    let mut g = Grid::new(0);
    g.take_snapshot();
    assert_eq!(g.history.len(), 0);
    assert_eq!(g.get_snapshot(), None);
    g.show_history = true;
    g.take_snapshot();
    g.take_snapshot();
    assert_eq!(g.history.len(), 2);
    assert_eq!(g.get_snapshot(), Some(1));
    assert_eq!(g.get_snapshot(), Some(2));
    assert_eq!(g.get_snapshot(), None);
    assert_eq!(g.get_snapshot(), Some(1));
}

#[test]
fn patterns_of_a_plain_grid_collapse_to_one() {
    let g = Grid::new(0);
    let set = build_patterns(&g, true, true);
    assert_eq!(set.patterns.len(), 1);
    assert_eq!(set.counts[0], 200);
    let c = patterns_to_constraints(&set);
    assert!(c[0].iter().all(|side| side[0]));
    let without = build_patterns(&g, false, false);
    assert_eq!(without.patterns.len(), 50);
}

#[test]
fn resynthesized_chunks_match_their_neighbours() {
    let mut rng = RandomNumberGenerator::seeded(8);
    let keys = vec![0i32; MAP_COUNT];
    let source = CellularAutomataBuilder::new(1).build(&mut rng, &keys);
    if let Some(out) = resynthesize(&source, 1, &mut rng) {
        for cy in 0..5usize {
            for cx in 0..10usize {
                if cx < 9 {
                    for k in 0..8usize {
                        let a = out.tiles[(cy * 8 + k) * 80 + cx * 8 + 7];
                        let b = out.tiles[(cy * 8 + k) * 80 + cx * 8 + 8];
                        assert_eq!(a, b);
                    }
                }
                if cy < 4 {
                    for k in 0..8usize {
                        let a = out.tiles[(cy * 8 + 7) * 80 + cx * 8 + k];
                        let b = out.tiles[(cy * 8 + 8) * 80 + cx * 8 + k];
                        assert_eq!(a, b);
                    }
                }
            }
        }
    }
}

#[test]
fn solve_succeeds_when_every_pattern_fits() {
    let g = Grid::new(0);
    let set = build_patterns(&g, true, true);
    let c = patterns_to_constraints(&set);
    let mut rng = RandomNumberGenerator::seeded(4);
    let ch = solve(&set, &c, &mut rng).expect("no contradiction is possible");
    assert_eq!(ch.len(), 50);
    assert!(ch.iter().all(|p| *p == 0));
}

#[test]
fn resynthesis_of_a_uniform_grid_succeeds() {
    let mut rng = RandomNumberGenerator::seeded(12);
    let keys = vec![0i32; MAP_COUNT];
    let mut source = Grid::new(1);
    for t in source.tiles.iter_mut() {
        *t = TileType::Floor;
    }
    let out = resynthesize(&source, 1, &mut rng).expect("every window matches every window");
    assert!(out.tiles[..40 * 80].iter().all(|t| *t == TileType::Floor));
    let built = dungeon_gen::wfc::WaveFunctionCollapseBuilder::new(1)
        .add(source)
        .build(&mut rng, &keys)
        .expect("every window matches every window");
    assert_eq!(built.depth, 1);
}
