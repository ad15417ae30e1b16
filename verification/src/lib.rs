//! Game-development utilities whose logic is verified with Verus: tile grids,
//! line of sight, breadth-first pathfinding, fog of war, an event bus, a data
//! registry, deterministic random helpers, save-key naming and text helpers.

pub mod grid;
pub mod text;
pub mod events;
pub mod rng;
pub mod fx;
pub mod persistence;
pub mod ui;
pub mod data_loader;
pub mod states;
pub mod notifications;
pub mod audio;
pub mod assets;
