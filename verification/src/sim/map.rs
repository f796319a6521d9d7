//! The star map's integer vocabulary: which points of interest there are,
//! and where the ship is in its docked/traveling cycle. Positions on the
//! map are floating point and live with the frontend.

use vstd::prelude::*;

verus! {

/// Index into the map's points of interest.
pub type PoiId = u8;

/// Number of points of interest on the map.
pub const POI_COUNT: usize = 12;

/// The Guild Station, where every run begins.
pub const GUILD: PoiId = 6;

/// Saturn, the planet the outer-ring roster never mentions.
pub const SATURN: PoiId = 7;

/// The Umbra Market, open only while the player's own clock reads night.
pub const UMBRA: PoiId = 8;

/// The Hermitage, tucked in the asteroid belt. Gift economy.
pub const HERMITAGE: PoiId = 9;

/// The comet. Dockable only while it is near the sun, tail lit.
pub const COMET: PoiId = 10;

/// `???`. It is only there when three mysterious crates hum in the hold.
pub const WANDERER: PoiId = 11;

/// The inner-ring planets a direct course cannot be charted to without a
/// transit chit aboard: Venus, Earth, Mars.
pub const INNER_RING: [PoiId; 3] = [0, 1, 2];

/// Where the ship is in its docked/traveling cycle. Travel is measured in
/// whole ticks so a leg replays and saves exactly.
#[derive(Clone, Copy, Debug, PartialEq, Eq, Structural)]
pub enum ShipState {
    Docked(PoiId),
    Traveling {
        from: PoiId,
        to: PoiId,
        /// Ticks elapsed on this leg.
        progress: u64,
        /// Ticks the whole leg takes.
        leg_ticks: u64,
    },
}

} // verus!
