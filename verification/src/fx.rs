//! Transient visual effects.

pub mod typewriter;
