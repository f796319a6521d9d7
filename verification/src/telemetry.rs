//! The telemetry buffer's refusals and the coarse public state one frame
//! of aggregation reads. The aggregation itself measures seconds in
//! floating point, and is not part of this library.

use vstd::prelude::*;
use vstd::string::StringExecFns;
use crate::text::{decimal, push_decimal};

verus! {

/// Why a telemetry buffer was refused.
#[derive(Clone, Copy, Debug, PartialEq, Eq, Structural)]
pub enum TelemetryError {
    /// Not a Space Trucking telemetry buffer at all.
    BadMagic,
    /// A buffer from a version this build does not read.
    UnsupportedVersion,
    /// Recognised header, malformed body; `line` is 1-based (0 = truncated).
    Parse { line: usize },
}

impl TelemetryError {
    /// What the refusal says to a person.
    pub open spec fn message(self) -> Seq<char> {
        match self {
            TelemetryError::BadMagic => "not a Space Trucking telemetry buffer"@,
            TelemetryError::UnsupportedVersion => "telemetry buffer is from an unsupported version"@,
            TelemetryError::Parse { line } => if line == 0 {
                "telemetry buffer ends too early"@
            } else {
                "malformed telemetry buffer at line "@ + decimal(line as nat)
            },
        }
    }

    /// The refusal as text.
    pub fn to_string(&self) -> (r: String)
        ensures
            r@ == self.message(),
    {
        match self {
            TelemetryError::BadMagic => String::from_str("not a Space Trucking telemetry buffer"),
            TelemetryError::UnsupportedVersion => String::from_str(
                "telemetry buffer is from an unsupported version",
            ),
            TelemetryError::Parse { line } => {
                if *line == 0 {
                    String::from_str("telemetry buffer ends too early")
                } else {
                    let mut s = String::from_str("malformed telemetry buffer at line ");
                    push_decimal(&mut s, *line);
                    s
                }
            },
        }
    }
}

/// The coarse public state one frame of aggregation reads — the same
/// altitude the audio flies at.
#[derive(Clone, Copy, Debug, Default, PartialEq, Eq, Structural)]
pub struct Snapshot {
    /// The ship is between stations.
    pub traveling: bool,
    /// The ship is docked.
    pub docked: bool,
    /// Warp is engaged.
    pub warp: bool,
    /// Ticking is suspended.
    pub paused: bool,
    /// Whether anything sits on the received shelf.
    pub received_occupied: bool,
}

} // verus!
