//! Glob patterns over object-store keys: a parser, a segment compiler, a
//! prefix planner driven by a store interface, and the pure decisions of
//! listing and downloading.

pub mod text;
pub mod compiled;
pub mod glob;
pub mod matcher;
pub mod engine;
pub mod mock;
pub mod planner;
pub mod download;
pub mod results;
pub mod format;
pub mod messaging;
pub mod location;
