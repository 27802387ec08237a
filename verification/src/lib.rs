//! A verified core for a map-serving engine.

pub mod bitmap;
pub mod flush;
pub mod gate;
pub mod gated_level;
pub mod generation;
pub mod geometry;
pub mod hashing;
pub mod histogram;
pub mod lineage;
pub mod lru;
pub mod membership_column;
pub mod merge;
pub mod occupancy;
pub mod order;
pub mod pins;
pub mod projection;
pub mod ranges;
pub mod records;
pub mod refresh;
pub mod region;
pub mod row_space;
pub mod runs;
pub mod scalar;
pub mod seqs;
pub mod shared;
pub mod text;
