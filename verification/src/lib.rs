//! Space Trucking's deterministic core: the room graph, the cargo
//! stowage arbiter, the station economy, the travel events, and the
//! save grammar, each stated and proved with Verus.

pub mod sim;
pub mod telemetry;
pub mod text;
