//! One flush of one view: what it plans, the columns it gathers and the files it names.

pub mod execute;
pub mod extents;
pub mod failure;
pub mod gather;
pub mod paths;
pub mod plan;
pub mod promotion;
pub mod recording;
pub mod rows;
pub mod scoped;
pub mod stages;
pub mod texts;
