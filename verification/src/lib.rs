//! Project model and scheduling core of an experimental audio engine.
pub mod ids;
pub mod arena;
pub mod model;
pub mod engine;
