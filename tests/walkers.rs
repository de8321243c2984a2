use dungeon_gen::common::{stagger, xy_idx};
use dungeon_gen::dla::{follow_line, walk_to_center};
use dungeon_gen::map::{Grid, TileType};
use dungeon_gen::maze::MazeGrid;
use dungeon_gen::simple_map::SimpleMapBuilder;
use rltk::RandomNumberGenerator;

#[test]
fn follow_line_stops_before_floor() {
    let mut g = Grid::new(0);
    g.tiles[xy_idx(10, 5)] = TileType::Floor;
    let path = vec![(5, 5), (6, 5), (7, 5), (8, 5), (9, 5), (10, 5), (11, 5)];
    assert_eq!(follow_line(&g, &path, 5, 5), (9, 5));
    let off_grid = vec![(5, 5), (-1, 5)];
    assert_eq!(follow_line(&g, &off_grid, 5, 5), (5, 5));
    let short = vec![(5, 5), (6, 5)];
    assert_eq!(follow_line(&g, &short, 5, 5), (5, 5));
}

#[test]
fn walkers_toward_the_centre_stop_beside_the_seed() {
    let mut g = Grid::new(0);
    for (x, y) in [(40, 21), (39, 21), (41, 21), (40, 20), (40, 22)] {
        g.tiles[xy_idx(x, y)] = TileType::Floor;
    }
    let mut rng = RandomNumberGenerator::seeded(5);
    for _ in 0..20 {
        let (x, y) = walk_to_center(&g, &mut rng, 40, 21);
        assert_eq!(g.tiles[xy_idx(x, y)], TileType::Wall);
        let mut touches = false;
        for dy in -1..=1 {
            for dx in -1..=1 {
                if g.tiles[xy_idx(x + dx, y + dy)] == TileType::Floor {
                    touches = true;
                }
            }
        }
        assert!(touches, "({}, {}) is not beside the seed", x, y);
    }
}

#[test]
fn stagger_moves_in_several_directions() {
    let mut rng = RandomNumberGenerator::seeded(17);
    let mut seen = [false; 4];
    for _ in 0..200 {
        let (x, y) = stagger(&mut rng, 40, 20);
        let d = match (x - 40, y - 20) {
            (-1, 0) => 0,
            (1, 0) => 1,
            (0, -1) => 2,
            (0, 1) => 3,
            other => panic!("unexpected step {:?}", other),
        };
        seen[d] = true;
    }
    assert!(seen.iter().all(|s| *s));
    assert_eq!(stagger(&mut rng, 2, 2).0 >= 2, true);
}

#[test]
fn room_sizes_vary() {
    let mut widths = Vec::new();
    for seed in 0..4u64 {
        let mut rng = RandomNumberGenerator::seeded(seed);
        let g = SimpleMapBuilder::new(1).build(&mut rng);
        for r in g.rooms.iter() {
            let w = r.x2 - r.x1;
            assert!(w >= 6 && w < 10);
            widths.push(w);
        }
    }
    assert!(widths.iter().any(|w| *w != widths[0]));
}

#[test]
fn maze_walk_visits_every_cell() {
    let mut rng = RandomNumberGenerator::seeded(99);
    let mut maze = MazeGrid::new(38, 19);
    let mut g = Grid::new(0);
    maze.generate_maze(&mut g, &mut rng);
    assert!(maze.cells.iter().all(|c| c.visited));
    assert!(maze.backtrace.is_empty());
    let open_walls: usize = maze
        .cells
        .iter()
        .map(|c| [c.top, c.right, c.bottom, c.left].iter().filter(|w| !**w).count())
        .sum();
    assert_eq!(open_walls, 2 * (38 * 19 - 1));
    assert_eq!(g.tiles[xy_idx(2, 2)], TileType::Floor);
}
