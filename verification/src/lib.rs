//! Fleet simulation to tile bridge: turns simulation events and sentiment
//! snapshots into extracted patterns, and patterns into training tiles.

pub mod event;
pub mod extractor;
pub mod laws;
pub mod order;
pub mod pattern;
pub mod sentiment;
pub mod tile;
pub mod text;
