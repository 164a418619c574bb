//! The engine side: errors, timeline positions, transport, schedules and
//! the commands that drive a project.
pub mod constants;
pub mod errors;
pub mod tick;
pub mod schedule;
pub mod transport;
pub mod commands;
pub mod diff;
pub mod workerpool;
