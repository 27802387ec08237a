//! How many tiles of each depth hold a row that a session may see.

pub mod ladder;
pub mod memo;
pub mod sketch;
pub mod walk;

pub use crate::occupancy::ladder::{
    finish_ladder, occupied_tiles, occupied_tiles_ladder, occupied_tiles_ladder_exact,
    occupied_tiles_ladder_with_precision, OccupancyLadder,
};
pub use crate::occupancy::memo::{
    OccupancyKey, OccupancyMemo, OccupiedTiles, DEFAULT_OCCUPANCY_CACHE_BYTES,
    OCCUPANCY_LIVE_BYTES_PER_SESSION, PER_ENTRY_FLOOR_BYTES,
};
pub use crate::occupancy::sketch::{
    alpha_q32, estimate_registers, ln_q32, register_of, TileSketch, SKETCH_PRECISION,
};
pub use crate::occupancy::walk::{for_each_occupied_tile, gallop, SegmentCodes};
