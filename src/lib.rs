//! Stitches square tiles of 2-byte cells into one square mosaic.
//!
//! `geometry` resolves and validates the tile grid and the tile side,
//! `compose` drives the row-by-row interleaving of the tiles into the mosaic,
//! and `config` holds the settings record that names the inputs and the output.
pub mod compose;
pub mod config;
pub mod geometry;
