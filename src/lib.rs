//! Procedural dungeon level generation: tile grids, builders, connectivity
//! pruning, spawn-region partitioning and wave-function-collapse resynthesis.
pub mod bsp_dungeon;
pub mod bsp_interior;
pub mod cellular_automata;
pub mod common;
pub mod connectivity;
pub mod dla;
pub mod drunkards_walk;
pub mod gamelog;
pub mod generate;
pub mod level;
pub mod lookup_table;
pub mod map;
pub mod maze;
pub mod random_table;
pub mod rect;
pub mod regions;
pub mod rng;
pub mod settings;
pub mod simple_map;
pub mod voronoi;
pub mod wfc;
pub mod wfc_patterns;
