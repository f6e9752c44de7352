//! Collision geometry and contact bookkeeping for a tile-based platformer.
//!
//! The crate turns the wall cells of a level grid into a small set of
//! rectangular colliders, keeps track of which entities stand on ground, and
//! fits a fixed-ratio camera window inside a level. Every function is stated
//! over plain values so that an engine can gather its data, call in, and
//! scatter the results back.

pub mod camera;
pub mod collider;
pub mod grid;
pub mod ground;
pub mod index;
pub mod level;
pub mod merge;
pub mod mesh;
pub mod plate;
pub mod tables;
