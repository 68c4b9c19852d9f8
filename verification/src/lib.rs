//! Codecs for the sprite files of a legacy life-simulation game, and the
//! palette matching and frame assembly that go with them.

pub mod buffer;
pub mod clipboard;
pub mod config;
pub mod edit;
pub mod error;
pub mod export;
pub mod file;
pub mod format;
pub mod history;
pub mod import;
pub mod palette;
pub mod raster;
pub mod selection;
pub mod sequence;
pub mod state;
pub mod view;
