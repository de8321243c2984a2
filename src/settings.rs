//! Configuration consumed when a builder is set up.
use vstd::prelude::*;

use crate::common::Symmetry;

verus! {

/// Where each drunken digger starts.
#[derive(PartialEq, Eq, Structural, Copy, Clone, Debug)]
pub enum DrunkSpawnMode {
    StartingPoint,
    Random,
}

/// The diffusion-limited aggregation variant.
#[derive(PartialEq, Eq, Structural, Copy, Clone, Debug)]
pub enum DLAAlgorithm {
    WalkInwards,
    WalkOutwards,
    CentralAttractor,
}

/// Settings for a builder; a builder ignores the fields it does not use.
#[derive(PartialEq, Eq, Structural, Copy, Clone, Debug)]
pub struct BuilderSettings {
    pub spawn_mode: Option<DrunkSpawnMode>,
    pub lifetime: Option<i32>,
    /// Target share of floor cells, in percent of the grid.
    pub floor_percent: Option<u32>,
    pub algorithm: Option<DLAAlgorithm>,
    pub symmetry: Option<Symmetry>,
    pub brush_size: Option<i32>,
}

/// Why a builder refused its settings.
#[derive(PartialEq, Eq, Structural, Copy, Clone, Debug)]
pub enum SettingsError {
    /// A setting that the builder needs was not given.
    MissingSetting,
    /// The floor share lies above 100 percent.
    FloorPercentTooLarge,
}

/// Number of floor cells that a target share asks for: `percent` of 3440, rounded down.
pub open spec fn desired_floor(percent: u32) -> int {
    (percent as int * 3440) / 100
}

/// Floor cells wanted for a share of at most 100 percent.
pub fn desired_floor_tiles(percent: u32) -> (r: usize)
    requires
        percent <= 100,
    ensures
        r as int == desired_floor(percent),
{
    (percent as usize * 3440) / 100
}

} // verus!
