//! Chunked voxel block storage with per-axis box collision against the
//! block grid, on fixed-point entity coordinates.
pub mod units;
pub mod region;
pub mod slice;
pub mod stack;
pub mod worldblocks;
pub mod util;
pub mod collision;
pub mod spatial;
pub mod game;
pub mod chunk;
