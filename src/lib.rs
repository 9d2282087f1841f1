//! Batch recording of TAS scripts with a physics-logging window placed
//! around the part of each script that changed, progress reporting for
//! such runs, and an index of the physics recordings they produce.

pub mod text;
pub mod diff;
pub mod progress;
pub mod plan;
pub mod mods;
pub mod grouping;
pub mod recordings;
pub mod index;
pub mod settings;
