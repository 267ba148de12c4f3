//! Planning and bookkeeping for a hybrid mount engine that lays module
//! overlays onto the system partitions, either as OverlayFS unions or through
//! a magic-mount bind graph.
pub mod bytes;
pub mod defs;
pub mod engine;
pub mod listing;
pub mod modules;
pub mod nuke;
pub mod overlay;
pub mod planner;
pub mod scanner;
pub mod sync;
