//! Menon demosaicing of Bayer mosaics, tile by tile.

pub mod bayer;
pub mod cfa;
pub mod chroma;
pub mod direction;
pub mod exact;
pub mod geometry;
pub mod green;
pub mod grid;
pub mod image;
pub mod laws;
pub mod locality;
pub mod menon;
pub mod model;
pub mod neighbours;
pub mod parallel;
pub mod raster;
pub mod refine;
pub mod rounding;
pub mod sample;
pub mod scaling;
pub mod scenes;
pub mod symmetry;
pub mod tiles;
