//! Software decoding of S3TC / RGTC compressed texture blocks.
//!
//! Each decoder turns one compressed 4x4 tile into raw channel bytes written
//! into a caller-owned raster, addressed by a row pitch in bytes.

pub mod alpha;
pub mod cli;
pub mod color;
pub mod formats;
pub mod tile;
