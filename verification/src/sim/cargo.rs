//! Cargo pieces: what they are, where they sit, and the stowage rules.
//!
//! A [`Piece`] is one draggable object. Its [`Loc`] says which room and
//! which cell of that room's net it occupies — every berth in the game is
//! a room cell or a cubby inside a piece standing on one — and
//! [`placement_check`] is the single arbiter of whether a piece may sit
//! there. A failure names the [`Violation`], so the frontend can flash
//! the right icon.
//!
//! Ownership is not a list. [`player_owned`] asks the berth's room and
//! tile class and nothing else: the room's own goods sit on `Stock`
//! tiles, and everything else aboard or alongside is the player's.

use vstd::prelude::*;
use crate::sim::room::{RoomId, RoomKind, Rooms, Surf, Tile};

verus! {

/// Everything haulable. Declaration order is the stable [`Kind::index`]
/// order that the barter value table is written in.
#[derive(Clone, Copy, Debug, PartialEq, Eq, Structural)]
pub enum Kind {
    PerfumeVial,
    GildedIdol,
    RationBricks,
    ScrapAlloy,
    Seedlings,
    GasCanister,
    CryoCore,
    BrinePearls,
    SuspiciousCrate,
    /// A small humming box. Three aboard and something notices.
    MysteriousCrate,
    /// What ??? trades three mysterious crates for.
    VeryMysteriousCrate,
    /// Chipped off a comet at perihelion. Free, if you can catch it.
    CometIce,
    /// Bottled at the Umbra Market during business hours only.
    BottledMidnight,
    /// A legally distinct ball of fur. It multiplies in transit.
    Fluff,
    /// Inner-ring transit papers, brokered by the Guild.
    TransitChit,
    /// What the space casino hands back when the house wins.
    CasinoChip,
    /// A hanging shade for the hold's gantry. Lit while berthed.
    CeilingLamp,
    /// A sconce off a repossessed liner, wall fittings included.
    WallLamp,
    /// A standing lamp, shade up top, base bolted to the deck.
    FloorLamp,
    /// Somebody's living room, in transit. The rat agrees.
    Couch,
    /// Gilt frame, subject debatable. Shows best under lamplight.
    Painting,
    /// A slim deck-bolted wardrobe with four cubbies: cargo that
    /// provides berths (see `Loc::Stow`).
    Cabinet,
    /// Somebody's heirloom, woven warm and gnawably soft. Lays on the
    /// deck (see `Loc::Laid`) and cargo stands on it without complaint.
    Rug,
    /// Ship enamel in a battered tin. Coats one cell of the room.
    PaintTin,
    /// Paint that glows: a laid coat lights its neighbours like a weak
    /// lamp.
    LuminousPaint,
    /// The exterior window: hangs like a painting, shows space.
    Window,
    /// The chart tank: the star map in a phosphor aquarium. Vital.
    ChartTank,
    /// The ETA gauge: a passive arc that reads the current leg.
    EtaGauge,
    /// The destination preview: where the selected course ends.
    DestPreview,
    /// The launch handle: the lever that commits a charted course. Vital.
    LaunchLever,
    /// A hand's breadth of glass in a bolt ring.
    Porthole,
    /// Four cells of glass in a frame, Saturn's and only Saturn's.
    BayWindow,
}

/// Number of cargo kinds. The discovery ledger is a `u32` bitmask per
/// station, so 32 is the ceiling and this table is at it.
pub const KIND_COUNT: usize = 32;

/// Cosmetic variant rolls per kind, for the renderer to vary sprites with.
pub const VARIANTS: u8 = 4;

/// The plane class a kind stands on.
#[derive(Clone, Copy, Debug, PartialEq, Eq, Structural)]
pub enum Mount {
    Ceiling,
    Floor,
    Wall,
}

/// Special handling a kind demands in a room.
#[derive(Clone, Copy, Debug, PartialEq, Eq, Structural)]
pub enum Tag {
    /// Weighty. Kept as kind data; no rule consumes it today.
    Heavy,
    /// No two volatile pieces may sit orthogonally adjacent.
    Volatile,
    /// Must touch the room's outer edge.
    Cryo,
    /// At most one suspicious piece aboard.
    Suspicious,
    /// A fixture: its footprint must lie on the named room surface.
    Affix(Mount),
    /// A dressing: it lays *into* the room (`Loc::Laid`) instead of
    /// occupying cells. `Some(mount)` restricts which surface it covers;
    /// `None` coats anywhere.
    Covering(Option<Mount>),
}

/// Whether chart `surf` satisfies `mount`. Any of the four walls is
/// "the wall".
pub open spec fn spec_mount_accepts(mount: Mount, surf: Surf) -> bool {
    match mount {
        Mount::Floor => surf == Surf::Floor,
        Mount::Ceiling => surf == Surf::Ceiling,
        Mount::Wall => surf == Surf::Aft || surf == Surf::Port || surf == Surf::Starboard || surf
            == Surf::Front,
    }
}

/// Whether chart `surf` satisfies `mount`: the arbiter's own clause,
/// public because the drawing has to ask it too.
pub fn mount_accepts(mount: Mount, surf: Surf) -> (r: bool)
    ensures
        r == spec_mount_accepts(mount, surf),
{
    match mount {
        Mount::Floor => surf == Surf::Floor,
        Mount::Ceiling => surf == Surf::Ceiling,
        Mount::Wall => surf == Surf::Aft || surf == Surf::Port || surf == Surf::Starboard || surf
            == Surf::Front,
    }
}

impl Kind {
    /// Every kind, in [`Kind::index`] order.
    pub const ALL: [Kind; KIND_COUNT] = [
        Kind::PerfumeVial,
        Kind::GildedIdol,
        Kind::RationBricks,
        Kind::ScrapAlloy,
        Kind::Seedlings,
        Kind::GasCanister,
        Kind::CryoCore,
        Kind::BrinePearls,
        Kind::SuspiciousCrate,
        Kind::MysteriousCrate,
        Kind::VeryMysteriousCrate,
        Kind::CometIce,
        Kind::BottledMidnight,
        Kind::Fluff,
        Kind::TransitChit,
        Kind::CasinoChip,
        Kind::CeilingLamp,
        Kind::WallLamp,
        Kind::FloorLamp,
        Kind::Couch,
        Kind::Painting,
        Kind::Cabinet,
        Kind::Rug,
        Kind::PaintTin,
        Kind::LuminousPaint,
        Kind::Window,
        Kind::ChartTank,
        Kind::EtaGauge,
        Kind::DestPreview,
        Kind::LaunchLever,
        Kind::Porthole,
        Kind::BayWindow,
    ];

    /// What a kind takes up, in cells of its own frame: `(across, deep,
    /// tall)`.
    pub open spec fn spec_extent(self) -> (u8, u8, u8) {
        match self {
            Kind::PerfumeVial
            | Kind::Seedlings
            | Kind::CryoCore
            | Kind::MysteriousCrate
            | Kind::CometIce
            | Kind::BottledMidnight
            | Kind::Fluff
            | Kind::TransitChit
            | Kind::CasinoChip
            | Kind::CeilingLamp
            | Kind::WallLamp
            | Kind::PaintTin
            | Kind::LuminousPaint
            | Kind::EtaGauge
            | Kind::DestPreview
            | Kind::LaunchLever
            | Kind::Porthole => (1u8, 1u8, 1u8),
            Kind::GildedIdol
            | Kind::BrinePearls
            | Kind::FloorLamp
            | Kind::Cabinet => (1u8, 1u8, 2u8),
            Kind::RationBricks
            | Kind::SuspiciousCrate
            | Kind::VeryMysteriousCrate
            | Kind::ChartTank
            | Kind::BayWindow => (2u8, 1u8, 2u8),
            Kind::ScrapAlloy
            | Kind::GasCanister
            | Kind::Couch
            | Kind::Painting
            | Kind::Rug
            | Kind::Window => (2u8, 1u8, 1u8),
        }
    }

    /// What a kind takes up, in cells of its own frame: `(across, deep,
    /// tall)`. A body has one shape and this is it; which two of the
    /// three a berth spends is the berth's business ([`Kind::plan_on`]).
    pub fn extent(self) -> (r: (u8, u8, u8))
        ensures
            r == self.spec_extent(),
    {
        match self {
            Kind::PerfumeVial
            | Kind::Seedlings
            | Kind::CryoCore
            | Kind::MysteriousCrate
            | Kind::CometIce
            | Kind::BottledMidnight
            | Kind::Fluff
            | Kind::TransitChit
            | Kind::CasinoChip
            | Kind::CeilingLamp
            | Kind::WallLamp
            | Kind::PaintTin
            | Kind::LuminousPaint
            | Kind::EtaGauge
            | Kind::DestPreview
            | Kind::LaunchLever
            | Kind::Porthole => (1, 1, 1),
            Kind::GildedIdol
            | Kind::BrinePearls
            | Kind::FloorLamp
            | Kind::Cabinet => (1, 1, 2),
            Kind::RationBricks
            | Kind::SuspiciousCrate
            | Kind::VeryMysteriousCrate
            | Kind::ChartTank
            | Kind::BayWindow => (2, 1, 2),
            Kind::ScrapAlloy
            | Kind::GasCanister
            | Kind::Couch
            | Kind::Painting
            | Kind::Rug
            | Kind::Window => (2, 1, 1),
        }
    }

    /// The face a rig is drawn on, `(across, tall)`: the kind's own
    /// upright frame, which no berth turns.
    pub fn upright(self) -> (r: (u8, u8))
        ensures
            r == (self.spec_extent().0, self.spec_extent().2),
    {
        let (across, _, tall) = self.extent();
        (across, tall)
    }

    /// The footprint on a chart of class `surf`, in the sheet's frame.
    pub open spec fn spec_plan_on(self, surf: Surf) -> (u8, u8) {
        let (across, deep, tall) = self.spec_extent();
        match surf {
            Surf::Floor | Surf::Ceiling => (across, deep),
            Surf::Aft | Surf::Front => (across, tall),
            Surf::Port | Surf::Starboard => (tall, across),
        }
    }

    /// The net cells this kind covers on a chart of class `surf`: a chart
    /// a body lies on spends the plan (across by deep); a chart it hangs
    /// against spends the elevation (across by tall), which a flank takes
    /// transposed, because the net's side flaps fold out sideways.
    pub fn plan_on(self, surf: Surf) -> (r: (u8, u8))
        ensures
            r == self.spec_plan_on(surf),
    {
        let (across, deep, tall) = self.extent();
        match surf {
            Surf::Floor | Surf::Ceiling => (across, deep),
            Surf::Aft | Surf::Front => (across, tall),
            Surf::Port | Surf::Starboard => (tall, across),
        }
    }

    /// Stowage constraint, if any.
    pub open spec fn spec_tag(self) -> Option<Tag> {
        match self {
            Kind::GildedIdol | Kind::ScrapAlloy => Some(Tag::Heavy),
            Kind::GasCanister => Some(Tag::Volatile),
            Kind::CryoCore | Kind::CometIce => Some(Tag::Cryo),
            Kind::SuspiciousCrate | Kind::VeryMysteriousCrate => Some(Tag::Suspicious),
            Kind::CeilingLamp => Some(Tag::Affix(Mount::Ceiling)),
            Kind::FloorLamp | Kind::Couch | Kind::Cabinet => Some(Tag::Affix(Mount::Floor)),
            Kind::WallLamp
            | Kind::Painting
            | Kind::Window
            | Kind::Porthole
            | Kind::BayWindow
            | Kind::ChartTank
            | Kind::EtaGauge
            | Kind::DestPreview
            | Kind::LaunchLever => Some(Tag::Affix(Mount::Wall)),
            Kind::Rug => Some(Tag::Covering(Some(Mount::Floor))),
            Kind::PaintTin | Kind::LuminousPaint => Some(Tag::Covering(None)),
            _ => None,
        }
    }

    /// Stowage constraint, if any.
    pub fn tag(self) -> (r: Option<Tag>)
        ensures
            r == self.spec_tag(),
    {
        match self {
            Kind::GildedIdol | Kind::ScrapAlloy => Some(Tag::Heavy),
            Kind::GasCanister => Some(Tag::Volatile),
            Kind::CryoCore | Kind::CometIce => Some(Tag::Cryo),
            Kind::SuspiciousCrate | Kind::VeryMysteriousCrate => Some(Tag::Suspicious),
            Kind::CeilingLamp => Some(Tag::Affix(Mount::Ceiling)),
            Kind::FloorLamp | Kind::Couch | Kind::Cabinet => Some(Tag::Affix(Mount::Floor)),
            Kind::WallLamp
            | Kind::Painting
            | Kind::Window
            | Kind::Porthole
            | Kind::BayWindow
            | Kind::ChartTank
            | Kind::EtaGauge
            | Kind::DestPreview
            | Kind::LaunchLever => Some(Tag::Affix(Mount::Wall)),
            Kind::Rug => Some(Tag::Covering(Some(Mount::Floor))),
            Kind::PaintTin | Kind::LuminousPaint => Some(Tag::Covering(None)),
            _ => None,
        }
    }

    /// Where this kind stands: fixtures keep their affixed surface;
    /// everything else goes on the floor.
    pub open spec fn spec_mount(self) -> Mount {
        match self.spec_tag() {
            Some(Tag::Affix(mount)) => mount,
            _ => Mount::Floor,
        }
    }

    /// Where this kind stands — its effective mount. Coverings answer to
    /// [`dressing_check`] instead and never consult this.
    pub fn mount(self) -> (r: Mount)
        ensures
            r == self.spec_mount(),
    {
        match self.tag() {
            Some(Tag::Affix(mount)) => mount,
            _ => Mount::Floor,
        }
    }

    /// Standing height on the floor, in wall cells — how far up an
    /// adjacent wall this kind shadows when it stands against one.
    pub fn stature(self) -> (r: u8)
        ensures
            r == self.spec_extent().2,
    {
        self.extent().2
    }

    /// Whether this is an instrument the ship cannot fly without.
    pub open spec fn spec_vital(self) -> bool {
        self == Kind::ChartTank || self == Kind::LaunchLever
    }

    /// Whether this kind is an operational instrument the ship cannot
    /// function without: the last one of a vital kind in the player's
    /// possession refuses every exit ceremony.
    pub fn vital(self) -> (r: bool)
        ensures
            r == self.spec_vital(),
    {
        self == Kind::ChartTank || self == Kind::LaunchLever
    }

    /// Whether this kind is one of the wall fittings every hull
    /// launches with.
    pub open spec fn spec_instrument(self) -> bool {
        self == Kind::Window || self == Kind::ChartTank || self == Kind::EtaGauge || self
            == Kind::DestPreview || self == Kind::LaunchLever
    }

    /// Whether this kind is one of the ship's instruments — the wall
    /// fittings every hull launches with. The porthole and the bay
    /// window are not: a hull launches with one window.
    pub fn instrument(self) -> (r: bool)
        ensures
            r == self.spec_instrument(),
    {
        self == Kind::Window || self == Kind::ChartTank || self == Kind::EtaGauge || self
            == Kind::DestPreview || self == Kind::LaunchLever
    }

    /// Whether this kind is a hole in the hull with glass in it.
    pub open spec fn spec_window(self) -> bool {
        self == Kind::Window || self == Kind::Porthole || self == Kind::BayWindow
    }

    /// Whether this kind is a window, whatever size the hole is.
    pub fn window(self) -> (r: bool)
        ensures
            r == self.spec_window(),
    {
        self == Kind::Window || self == Kind::Porthole || self == Kind::BayWindow
    }

    /// Whether this kind is laid into the room rather than standing on it.
    pub open spec fn spec_covering(self) -> bool {
        self.spec_tag() matches Some(Tag::Covering(_))
    }

    /// Whether this kind is a dressing — laid into the room rather than
    /// standing on it. Coverings have no occupancy form at all.
    pub fn covering(self) -> (r: bool)
        ensures
            r == self.spec_covering(),
    {
        match self.tag() {
            Some(Tag::Covering(_)) => true,
            _ => false,
        }
    }

    /// How eagerly the burner takes this kind, `0..=3`.
    pub open spec fn spec_flammable(self) -> u8 {
        match self {
            Kind::PerfumeVial
            | Kind::RationBricks
            | Kind::Seedlings
            | Kind::Painting
            | Kind::Cabinet
            | Kind::LuminousPaint => 2u8,
            Kind::GildedIdol
            | Kind::ScrapAlloy
            | Kind::CryoCore
            | Kind::BrinePearls
            | Kind::SuspiciousCrate
            | Kind::VeryMysteriousCrate
            | Kind::CometIce
            | Kind::Window
            | Kind::ChartTank
            | Kind::EtaGauge
            | Kind::DestPreview
            | Kind::LaunchLever
            | Kind::Porthole
            | Kind::BayWindow => 0u8,
            Kind::GasCanister
            | Kind::Fluff
            | Kind::Couch
            | Kind::Rug => 3u8,
            Kind::MysteriousCrate
            | Kind::BottledMidnight
            | Kind::TransitChit
            | Kind::CasinoChip
            | Kind::CeilingLamp
            | Kind::WallLamp
            | Kind::FloorLamp
            | Kind::PaintTin => 1u8,
        }
    }

    /// How eagerly the burner takes this kind, `0..=3`: stoke earned per
    /// piece fed to the fire. Upholstery, fur, and fuel go up gloriously;
    /// wood and paper honestly; metal, stone, glass, and ice are slag.
    pub fn flammable(self) -> (r: u8)
        ensures
            r == self.spec_flammable(),
    {
        match self {
            Kind::PerfumeVial
            | Kind::RationBricks
            | Kind::Seedlings
            | Kind::Painting
            | Kind::Cabinet
            | Kind::LuminousPaint => 2,
            Kind::GildedIdol
            | Kind::ScrapAlloy
            | Kind::CryoCore
            | Kind::BrinePearls
            | Kind::SuspiciousCrate
            | Kind::VeryMysteriousCrate
            | Kind::CometIce
            | Kind::Window
            | Kind::ChartTank
            | Kind::EtaGauge
            | Kind::DestPreview
            | Kind::LaunchLever
            | Kind::Porthole
            | Kind::BayWindow => 0,
            Kind::GasCanister
            | Kind::Fluff
            | Kind::Couch
            | Kind::Rug => 3,
            Kind::MysteriousCrate
            | Kind::BottledMidnight
            | Kind::TransitChit
            | Kind::CasinoChip
            | Kind::CeilingLamp
            | Kind::WallLamp
            | Kind::FloorLamp
            | Kind::PaintTin => 1,
        }
    }

    /// Stable column of the barter value table.
    pub open spec fn spec_index(self) -> int {
        match self {
            Kind::PerfumeVial => 0,
            Kind::GildedIdol => 1,
            Kind::RationBricks => 2,
            Kind::ScrapAlloy => 3,
            Kind::Seedlings => 4,
            Kind::GasCanister => 5,
            Kind::CryoCore => 6,
            Kind::BrinePearls => 7,
            Kind::SuspiciousCrate => 8,
            Kind::MysteriousCrate => 9,
            Kind::VeryMysteriousCrate => 10,
            Kind::CometIce => 11,
            Kind::BottledMidnight => 12,
            Kind::Fluff => 13,
            Kind::TransitChit => 14,
            Kind::CasinoChip => 15,
            Kind::CeilingLamp => 16,
            Kind::WallLamp => 17,
            Kind::FloorLamp => 18,
            Kind::Couch => 19,
            Kind::Painting => 20,
            Kind::Cabinet => 21,
            Kind::Rug => 22,
            Kind::PaintTin => 23,
            Kind::LuminousPaint => 24,
            Kind::Window => 25,
            Kind::ChartTank => 26,
            Kind::EtaGauge => 27,
            Kind::DestPreview => 28,
            Kind::LaunchLever => 29,
            Kind::Porthole => 30,
            Kind::BayWindow => 31,
        }
    }

    /// The kind in column `i` of the barter value table, if any.
    pub open spec fn spec_from_index(i: int) -> Option<Kind> {
        if i == 0 {
            Some(Kind::PerfumeVial)
        } else if i == 1 {
            Some(Kind::GildedIdol)
        } else if i == 2 {
            Some(Kind::RationBricks)
        } else if i == 3 {
            Some(Kind::ScrapAlloy)
        } else if i == 4 {
            Some(Kind::Seedlings)
        } else if i == 5 {
            Some(Kind::GasCanister)
        } else if i == 6 {
            Some(Kind::CryoCore)
        } else if i == 7 {
            Some(Kind::BrinePearls)
        } else if i == 8 {
            Some(Kind::SuspiciousCrate)
        } else if i == 9 {
            Some(Kind::MysteriousCrate)
        } else if i == 10 {
            Some(Kind::VeryMysteriousCrate)
        } else if i == 11 {
            Some(Kind::CometIce)
        } else if i == 12 {
            Some(Kind::BottledMidnight)
        } else if i == 13 {
            Some(Kind::Fluff)
        } else if i == 14 {
            Some(Kind::TransitChit)
        } else if i == 15 {
            Some(Kind::CasinoChip)
        } else if i == 16 {
            Some(Kind::CeilingLamp)
        } else if i == 17 {
            Some(Kind::WallLamp)
        } else if i == 18 {
            Some(Kind::FloorLamp)
        } else if i == 19 {
            Some(Kind::Couch)
        } else if i == 20 {
            Some(Kind::Painting)
        } else if i == 21 {
            Some(Kind::Cabinet)
        } else if i == 22 {
            Some(Kind::Rug)
        } else if i == 23 {
            Some(Kind::PaintTin)
        } else if i == 24 {
            Some(Kind::LuminousPaint)
        } else if i == 25 {
            Some(Kind::Window)
        } else if i == 26 {
            Some(Kind::ChartTank)
        } else if i == 27 {
            Some(Kind::EtaGauge)
        } else if i == 28 {
            Some(Kind::DestPreview)
        } else if i == 29 {
            Some(Kind::LaunchLever)
        } else if i == 30 {
            Some(Kind::Porthole)
        } else if i == 31 {
            Some(Kind::BayWindow)
        } else {
            None
        }
    }

    /// The kind in column `i` of the barter value table, if any.
    pub fn from_index(i: usize) -> (r: Option<Kind>)
        ensures
            r == Kind::spec_from_index(i as int),
    {
        match i {
            0 => Some(Kind::PerfumeVial),
            1 => Some(Kind::GildedIdol),
            2 => Some(Kind::RationBricks),
            3 => Some(Kind::ScrapAlloy),
            4 => Some(Kind::Seedlings),
            5 => Some(Kind::GasCanister),
            6 => Some(Kind::CryoCore),
            7 => Some(Kind::BrinePearls),
            8 => Some(Kind::SuspiciousCrate),
            9 => Some(Kind::MysteriousCrate),
            10 => Some(Kind::VeryMysteriousCrate),
            11 => Some(Kind::CometIce),
            12 => Some(Kind::BottledMidnight),
            13 => Some(Kind::Fluff),
            14 => Some(Kind::TransitChit),
            15 => Some(Kind::CasinoChip),
            16 => Some(Kind::CeilingLamp),
            17 => Some(Kind::WallLamp),
            18 => Some(Kind::FloorLamp),
            19 => Some(Kind::Couch),
            20 => Some(Kind::Painting),
            21 => Some(Kind::Cabinet),
            22 => Some(Kind::Rug),
            23 => Some(Kind::PaintTin),
            24 => Some(Kind::LuminousPaint),
            25 => Some(Kind::Window),
            26 => Some(Kind::ChartTank),
            27 => Some(Kind::EtaGauge),
            28 => Some(Kind::DestPreview),
            29 => Some(Kind::LaunchLever),
            30 => Some(Kind::Porthole),
            31 => Some(Kind::BayWindow),
            _ => None,
        }
    }

    /// A kind's column names it back.
    pub proof fn lemma_index_round_trip(self)
        ensures
            Kind::spec_from_index(self.spec_index()) == Some(self),
            0 <= self.spec_index() < KIND_COUNT,
    {
    }

    /// Stable column index into the barter value table.
    pub fn index(self) -> (r: usize)
        ensures
            r == self.spec_index(),
    {
        match self {
            Kind::PerfumeVial => 0,
            Kind::GildedIdol => 1,
            Kind::RationBricks => 2,
            Kind::ScrapAlloy => 3,
            Kind::Seedlings => 4,
            Kind::GasCanister => 5,
            Kind::CryoCore => 6,
            Kind::BrinePearls => 7,
            Kind::SuspiciousCrate => 8,
            Kind::MysteriousCrate => 9,
            Kind::VeryMysteriousCrate => 10,
            Kind::CometIce => 11,
            Kind::BottledMidnight => 12,
            Kind::Fluff => 13,
            Kind::TransitChit => 14,
            Kind::CasinoChip => 15,
            Kind::CeilingLamp => 16,
            Kind::WallLamp => 17,
            Kind::FloorLamp => 18,
            Kind::Couch => 19,
            Kind::Painting => 20,
            Kind::Cabinet => 21,
            Kind::Rug => 22,
            Kind::PaintTin => 23,
            Kind::LuminousPaint => 24,
            Kind::Window => 25,
            Kind::ChartTank => 26,
            Kind::EtaGauge => 27,
            Kind::DestPreview => 28,
            Kind::LaunchLever => 29,
            Kind::Porthole => 30,
            Kind::BayWindow => 31,
        }
    }
}

/// Which berth a piece sits in: a cell of some room's net, or a cubby
/// inside a piece standing on one.
#[derive(Clone, Copy, Debug, PartialEq, Eq, Structural)]
pub enum Loc {
    /// Anchor cell in a room's net (top-left of the footprint).
    Hold { room: RoomId, x: u8, y: u8 },
    /// Inside a cabinet's cubby. The berth exists only while that cabinet
    /// piece does.
    Stow { cabinet: u32, slot: u8 },
    /// Laid into a room at the anchor cell: the dressing layer. Coexists
    /// with occupancy on the same cells.
    Laid { room: RoomId, x: u8, y: u8 },
}

/// One cargo piece.
#[derive(Clone, Copy, Debug, PartialEq, Eq, Structural)]
pub struct Piece {
    /// Stable identity, never reused within a run.
    pub id: u32,
    pub kind: Kind,
    /// Visual flavour roll, for the renderer to vary sprites with.
    pub variant: u8,
    /// A rat has been at it: permanently bitten, worth a little less at
    /// every station, and otherwise a perfectly ordinary piece.
    pub gnawed: bool,
    pub loc: Loc,
}

/// Which stowage rule refused a placement. One variant per rule.
#[derive(Clone, Copy, Debug, PartialEq, Eq, Structural)]
pub enum Violation {
    /// The footprint leaves the net, crosses a hole, or bends over a fold.
    Bounds,
    /// The footprint overlaps another piece's cells — or its standing
    /// volume: a tall floor piece shadows the wall behind it.
    Overlap,
    /// Two volatile pieces orthogonally adjacent.
    Volatile,
    /// A cryo piece not touching the floor's hull edge.
    Cryo,
    /// A second suspicious piece aboard.
    Suspicious,
    /// A placement whose chart does not satisfy the kind's mount.
    Affix(Mount),
    /// A cabinet with goods in its cubbies was asked to move, or a
    /// dressing was asked to slide under standing cargo.
    Occupied,
    /// The last vital instrument aboard offered to an exit ceremony.
    Vital,
    /// An aperture's footprint was asked to hold cargo.
    Threshold,
    /// A cell the room's own hardware already fills was asked to hold
    /// cargo.
    Fixture,
}

/// Cubbies per cabinet: a 2×2 rack of them behind the doors.
pub const CABINET_SLOTS: u8 = 4;

/// Whether `kind` may ride inside a cabinet: one cell, not a window,
/// neither cold nor suspect.
pub open spec fn spec_stowable(kind: Kind) -> bool {
    &&& kind.spec_extent() == (1u8, 1u8, 1u8)
    &&& !kind.spec_window()
    &&& !(kind.spec_tag() == Some(Tag::Cryo) || kind.spec_tag() == Some(Tag::Suspicious))
}

/// Whether `kind` may ride inside a cabinet.
///
/// One cell, and neither the kinds that need the hull's cold (cryo) nor
/// the ones nobody should box up (suspicious). Windows are out too, at
/// every size: a hole in the hull is not a thing you put in a drawer.
pub fn stowable(kind: Kind) -> (r: bool)
    ensures
        r == spec_stowable(kind),
{
    let e = kind.extent();
    e.0 == 1 && e.1 == 1 && e.2 == 1 && !kind.window() && match kind.tag() {
        Some(Tag::Cryo) | Some(Tag::Suspicious) => false,
        _ => true,
    }
}

/// The footprint `kind` takes anchored at `(x, y)` of `host`'s net.
pub open spec fn spec_plan(host: RoomKind, kind: Kind, x: int, y: int) -> Option<(u8, u8)> {
    match host.spec_surface_of(x, y) {
        Some(surf) => Some(kind.spec_plan_on(surf)),
        None => None,
    }
}

/// The net cells `kind` covers anchored at `(x, y)` of `host`'s net: a
/// footprint is a property of the kind and the chart it lands on
/// together. `None` where `(x, y)` is not a cell of that net at all.
pub fn plan(host: RoomKind, kind: Kind, x: u8, y: u8) -> (r: Option<(u8, u8)>)
    ensures
        r == spec_plan(host, kind, x as int, y as int),
{
    match host.surface_of(x, y) {
        Some(surf) => Some(kind.plan_on(surf)),
        None => None,
    }
}

/// Whether `loc` is one of `cabinet`'s cubbies.
pub open spec fn in_cubby(loc: Loc, cabinet: u32) -> bool {
    loc matches Loc::Stow { cabinet: c, .. } && c == cabinet
}

/// Whether any piece rides in `cabinet`'s cubbies. An occupied cabinet
/// refuses to be lifted or quick-moved: empty it first.
pub fn cabinet_occupied(pieces: &[Piece], cabinet: u32) -> (r: bool)
    ensures
        r == exists|i: int| 0 <= i < pieces@.len() && in_cubby(#[trigger] pieces@[i].loc, cabinet),
{
    let mut i: usize = 0;
    while i < pieces.len()
        invariant
            i <= pieces@.len(),
            forall|j: int| 0 <= j < i ==> !in_cubby(#[trigger] pieces@[j].loc, cabinet),
        decreases pieces@.len() - i,
    {
        if let Loc::Stow { cabinet: c, .. } = pieces[i].loc {
            if c == cabinet {
                return true;
            }
        }
        i = i + 1;
    }
    false
}

/// Whether some piece rides in cubby `slot` of `cabinet`.
pub open spec fn cubby_taken(pieces: Seq<Piece>, cabinet: u32, slot: int) -> bool {
    exists|i: int| 0 <= i < pieces.len() && #[trigger] pieces[i].loc == (Loc::Stow { cabinet, slot: slot as u8 })
}

/// The first free cubby of `cabinet`, if any.
pub fn free_cubby(pieces: &[Piece], cabinet: u32) -> (r: Option<u8>)
    ensures
        r matches Some(s) ==> s < CABINET_SLOTS && !cubby_taken(pieces@, cabinet, s as int) && forall|t: int|
            0 <= t < s ==> cubby_taken(pieces@, cabinet, t),
        r is None ==> forall|t: int| 0 <= t < CABINET_SLOTS ==> cubby_taken(pieces@, cabinet, t),
{
    let mut slot: u8 = 0;
    while slot < CABINET_SLOTS
        invariant
            slot <= CABINET_SLOTS,
            forall|t: int| 0 <= t < slot ==> cubby_taken(pieces@, cabinet, t),
        decreases CABINET_SLOTS - slot,
    {
        let mut taken = false;
        let mut i: usize = 0;
        while i < pieces.len()
            invariant
                i <= pieces@.len(),
                slot < CABINET_SLOTS,
                taken ==> cubby_taken(pieces@, cabinet, slot as int),
                !taken ==> forall|j: int| 0 <= j < i ==> #[trigger] pieces@[j].loc != (Loc::Stow { cabinet, slot }),
            decreases pieces@.len() - i,
        {
            if pieces[i].loc == (Loc::Stow { cabinet, slot }) {
                taken = true;
            }
            i = i + 1;
        }
        if !taken {
            return Some(slot);
        }
        slot = slot + 1;
    }
    None
}

/// Whether a piece at `loc` is the player's: a cubby always is; a berth
/// in a room is unless its tile is the room's own `Stock`.
pub open spec fn spec_player_owned(rooms: Rooms, loc: Loc) -> bool {
    match loc {
        Loc::Stow { .. } => true,
        Loc::Hold { room, x, y } | Loc::Laid { room, x, y } => rooms.tile_at(room as int, x as int, y as int)
            != Some(Tile::Stock),
    }
}

/// Whether a piece at `loc` belongs to the player rather than to the
/// room it stands in.
///
/// This is the ownership rule, and it is a function of tile class, not
/// of a hand-written list of berths: a berth on a `Stock` tile is the
/// room's own goods; every other berth is the player's — a proposal on
/// an `Offer` tile stays the player's until a resolution says
/// otherwise, and a piece staged on the incinerator's `Consume` tiles is
/// the player's right up until the stoker takes it.
pub fn player_owned(rooms: &Rooms, pieces: &[Piece], loc: Loc) -> (r: bool)
    ensures
        r == spec_player_owned(*rooms, loc),
{
    match loc {
        Loc::Stow { .. } => true,
        Loc::Hold { room, x, y } | Loc::Laid { room, x, y } => {
            let _ = pieces;
            rooms.tile(room, x, y) != Some(Tile::Stock)
        },
    }
}


/// The index of the first piece from `i` on with identity `id`, if any.
pub open spec fn first_with_id(pieces: Seq<Piece>, id: u32, i: int) -> Option<int>
    decreases pieces.len() - i,
{
    if i < 0 || i >= pieces.len() {
        None
    } else if pieces[i].id == id {
        Some(i)
    } else {
        first_with_id(pieces, id, i + 1)
    }
}

/// The room a berth is in, following cubbies to their cabinets at most
/// `depth` times.
pub open spec fn spec_loc_room(pieces: Seq<Piece>, loc: Loc, depth: nat) -> Option<RoomId>
    decreases depth,
{
    match loc {
        Loc::Hold { room, .. } | Loc::Laid { room, .. } => Some(room),
        Loc::Stow { cabinet, .. } => if depth == 0 {
            None
        } else {
            match first_with_id(pieces, cabinet, 0) {
                Some(i) => spec_loc_room(pieces, pieces[i].loc, (depth - 1) as nat),
                None => None,
            }
        },
    }
}

/// The first piece with identity `id`.
pub fn find_piece(pieces: &[Piece], id: u32) -> (r: Option<usize>)
    ensures
        match first_with_id(pieces@, id, 0) {
            Some(i) => r is Some && r->0 as int == i && 0 <= i < pieces@.len(),
            None => r is None,
        },
{
    let mut i: usize = 0;
    while i < pieces.len()
        invariant
            i <= pieces@.len(),
            first_with_id(pieces@, id, 0) == first_with_id(pieces@, id, i as int),
        decreases pieces@.len() - i,
    {
        if pieces[i].id == id {
            return Some(i);
        }
        i = i + 1;
    }
    None
}

/// A berth's room, following cubbies at most `depth` times.
fn room_within(loc: Loc, pieces: &[Piece], depth: usize) -> (r: Option<RoomId>)
    ensures
        r == spec_loc_room(pieces@, loc, depth as nat),
    decreases depth,
{
    match loc {
        Loc::Hold { room, .. } | Loc::Laid { room, .. } => Some(room),
        Loc::Stow { cabinet, .. } => {
            if depth == 0 {
                return None;
            }
            match find_piece(pieces, cabinet) {
                Some(i) => room_within(pieces[i].loc, pieces, depth - 1),
                None => None,
            }
        },
    }
}

impl Loc {
    /// Which room this berth is in, following a cubby to its cabinet.
    /// A chain of cubbies is followed at most once per piece, which is
    /// every chain there is: a cabinet does not ride in a cubby.
    pub fn room(self, pieces: &[Piece]) -> (r: Option<RoomId>)
        ensures
            r == spec_loc_room(pieces@, self, pieces@.len() as nat),
    {
        room_within(self, pieces, pieces.len())
    }
}

/// Whether following cubbies from `loc` ends within `depth` steps: at a
/// berth in a room, or at a cabinet that no piece is.
pub open spec fn chain_ends(pieces: Seq<Piece>, loc: Loc, depth: nat) -> bool
    decreases depth,
{
    match loc {
        Loc::Stow { cabinet, .. } => match first_with_id(pieces, cabinet, 0) {
            Some(i) => depth > 0 && chain_ends(pieces, pieces[i].loc, (depth - 1) as nat),
            None => true,
        },
        _ => true,
    }
}

/// **A berth's room does not depend on how deep the search goes** once
/// the cubby chain from it has ended.
pub proof fn lemma_loc_room_depth(pieces: Seq<Piece>, loc: Loc, depth: nat, deeper: nat)
    requires
        chain_ends(pieces, loc, depth),
        depth <= deeper,
    ensures
        spec_loc_room(pieces, loc, deeper) == spec_loc_room(pieces, loc, depth),
    decreases depth,
{
    match loc {
        Loc::Stow { cabinet, .. } => match first_with_id(pieces, cabinet, 0) {
            Some(i) => {
                lemma_loc_room_depth(pieces, pieces[i].loc, (depth - 1) as nat, (deeper - 1) as nat);
            },
            None => {},
        },
        _ => {},
    }
}

/// **A berth's room, unfolded**: on a board where the cubby chain from
/// every piece ends within one step fewer than the board holds pieces
/// (no chain of cubbies comes back round to a cabinet already on it), a
/// berth in a room is in that room, and a cubby is in the room its
/// cabinet, the first piece with that identity, is in; a cubby whose
/// cabinet no piece is is in no room.
pub proof fn lemma_loc_room_unfolds(pieces: Seq<Piece>, loc: Loc)
    requires
        forall|j: int| 0 <= j < pieces.len() ==> chain_ends(pieces, #[trigger] pieces[j].loc, (pieces.len() - 1) as nat),
    ensures
        match loc {
            Loc::Hold { room, .. } | Loc::Laid { room, .. } => spec_loc_room(pieces, loc, pieces.len()) == Some(room),
            Loc::Stow { cabinet, .. } => match first_with_id(pieces, cabinet, 0) {
                Some(i) => spec_loc_room(pieces, loc, pieces.len()) == spec_loc_room(
                    pieces,
                    pieces[i].loc,
                    pieces.len(),
                ),
                None => spec_loc_room(pieces, loc, pieces.len()) is None,
            },
        },
{
    match loc {
        Loc::Stow { cabinet, .. } => match first_with_id(pieces, cabinet, 0) {
            Some(i) => {
                lemma_first_with_id_in(pieces, cabinet, 0);
                assert(chain_ends(pieces, pieces[i].loc, (pieces.len() - 1) as nat));
                lemma_loc_room_depth(pieces, pieces[i].loc, (pieces.len() - 1) as nat, pieces.len());
            },
            None => {},
        },
        _ => {},
    }
}

/// The first piece from `i` on with an identity is one of the board's.
pub proof fn lemma_first_with_id_in(pieces: Seq<Piece>, id: u32, i: int)
    ensures
        first_with_id(pieces, id, i) matches Some(j) ==> 0 <= j < pieces.len() && i <= j && pieces[j].id == id,
    decreases pieces.len() - i,
{
    if 0 <= i < pieces.len() && pieces[i].id != id {
        lemma_first_with_id_in(pieces, id, i + 1);
    }
}

/// Whether footprint `(x, y, w, h)` covers cell `(cx, cy)`.
pub open spec fn spec_covers(x: int, y: int, w: int, h: int, cx: int, cy: int) -> bool {
    x <= cx < x + w && y <= cy < y + h
}

/// Whether footprint `(x, y, w, h)` covers cell `(cx, cy)`.
fn covers(x: u8, y: u8, w: u8, h: u8, cx: u8, cy: u8) -> (r: bool)
    requires
        x + w < 256,
        y + h < 256,
    ensures
        r == spec_covers(x as int, y as int, w as int, h as int, cx as int, cy as int),
{
    cx >= x && cx < x + w && cy >= y && cy < y + h
}

/// Whether two cell rects intersect.
pub open spec fn spec_overlaps(a: (u8, u8, u8, u8), b: (u8, u8, u8, u8)) -> bool {
    a.0 < b.0 + b.2 && b.0 < a.0 + a.2 && a.1 < b.1 + b.3 && b.1 < a.1 + a.3
}

/// Cell-rect intersection test.
fn overlaps(a: (u8, u8, u8, u8), b: (u8, u8, u8, u8)) -> (r: bool)
    requires
        a.0 + a.2 < 256,
        a.1 + a.3 < 256,
        b.0 + b.2 < 256,
        b.1 + b.3 < 256,
    ensures
        r == spec_overlaps(a, b),
{
    a.0 < b.0 + b.2 && b.0 < a.0 + a.2 && a.1 < b.1 + b.3 && b.1 < a.1 + a.3
}

/// Whether two footprints share an orthogonal edge (corners do not
/// count).
pub open spec fn spec_adjacent(a: (u8, u8, u8, u8), b: (u8, u8, u8, u8)) -> bool {
    let x_overlap = a.0 < b.0 + b.2 && b.0 < a.0 + a.2;
    let y_overlap = a.1 < b.1 + b.3 && b.1 < a.1 + a.3;
    let x_touch = a.0 + a.2 == b.0 || b.0 + b.2 == a.0;
    let y_touch = a.1 + a.3 == b.1 || b.1 + b.3 == a.1;
    (x_overlap && y_touch) || (y_overlap && x_touch)
}

/// Whether two footprints share an orthogonal edge (corners do not
/// count).
fn adjacent(a: (u8, u8, u8, u8), b: (u8, u8, u8, u8)) -> (r: bool)
    requires
        a.0 + a.2 < 256,
        a.1 + a.3 < 256,
        b.0 + b.2 < 256,
        b.1 + b.3 < 256,
    ensures
        r == spec_adjacent(a, b),
{
    let x_overlap = a.0 < b.0 + b.2 && b.0 < a.0 + a.2;
    let y_overlap = a.1 < b.1 + b.3 && b.1 < a.1 + a.3;
    let x_touch = a.0 + a.2 == b.0 || b.0 + b.2 == a.0;
    let y_touch = a.1 + a.3 == b.1 || b.1 + b.3 == a.1;
    (x_overlap && y_touch) || (y_overlap && x_touch)
}

/// The one chart a footprint lies wholly inside, if any.
pub open spec fn spec_footprint_surface(host: RoomKind, x: int, y: int, w: int, h: int) -> Option<Surf> {
    match host.spec_surface_of(x, y) {
        None => None,
        Some(anchor) => if forall|cx: int, cy: int|
            spec_covers(x, y, w, h, cx, cy) ==> #[trigger] host.spec_surface_of(cx, cy) == Some(anchor) {
            Some(anchor)
        } else {
            None
        },
    }
}

/// A cell of the net lies within the grid.
proof fn lemma_net_in_grid(host: RoomKind, x: int, y: int)
    requires
        0 <= x,
        0 <= y,
        host.spec_surface_of(x, y) is Some,
    ensures
        x < host.spec_grid().0 <= 22,
        y < host.spec_grid().1 <= 13,
{
}

/// The one chart a footprint lies wholly inside, if any — a piece bent
/// over a fold, crossing a hole, or leaving the net is nowhere.
fn footprint_surface(host: RoomKind, x: u8, y: u8, w: u8, h: u8) -> (r: Option<Surf>)
    requires
        x + w < 256,
        y + h < 256,
    ensures
        r == spec_footprint_surface(host, x as int, y as int, w as int, h as int),
{
    let anchor = match host.surface_of(x, y) {
        Some(a) => a,
        None => return None,
    };
    let mut cy: u8 = y;
    while cy < y + h
        invariant
            y <= cy <= y + h,
            x + w < 256,
            y + h < 256,
            host.spec_surface_of(x as int, y as int) == Some(anchor),
            forall|cx: int, dy: int|
                spec_covers(x as int, y as int, w as int, h as int, cx, dy) && dy < cy ==> #[trigger] host.spec_surface_of(
                    cx,
                    dy,
                ) == Some(anchor),
        decreases y + h - cy,
    {
        let mut cx: u8 = x;
        while cx < x + w
            invariant
                y <= cy < y + h,
                x <= cx <= x + w,
                x + w < 256,
                y + h < 256,
                host.spec_surface_of(x as int, y as int) == Some(anchor),
                forall|ex: int, dy: int|
                    spec_covers(x as int, y as int, w as int, h as int, ex, dy) && (dy < cy || (dy == cy
                        && ex < cx)) ==> #[trigger] host.spec_surface_of(ex, dy) == Some(anchor),
            decreases x + w - cx,
        {
            if host.surface_of(cx, cy) != Some(anchor) {
                return None;
            }
            cx = cx + 1;
        }
        cy = cy + 1;
    }
    Some(anchor)
}


/// Whether cell `c` lies `d` courses up the wall strip a floor footprint
/// `(x, y, w, h)` stands against on `host`: behind its aft edge, before
/// its front edge, or beside either flank, wherever that edge lies along
/// a baseboard.
pub open spec fn strip_cell(host: RoomKind, x: int, y: int, w: int, h: int, d: int, c: (int, int)) -> bool {
    let fw = host.width();
    let fh = host.depth();
    ||| y == 3 && x <= c.0 < x + w && c.1 == 2 - d
    ||| y + h == 3 + fh && x <= c.0 < x + w && c.1 == 3 + fh + d
    ||| x == 3 && y <= c.1 < y + h && c.0 == 2 - d
    ||| x + w == 3 + fw && y <= c.1 < y + h && c.0 == 3 + fw + d
}

/// How many courses up a piece of `stature` shadows: its height, at
/// most the wall's.
pub open spec fn shadow_depth(stature: int) -> int {
    if stature < 3 {
        stature
    } else {
        3
    }
}

/// Whether wall cell `c` lies in the shadow a standing floor footprint
/// of `stature` casts: the wall cells directly behind each footprint
/// edge that lies along a baseboard, baseboard upward through the
/// piece's stature.
pub open spec fn in_shadow(host: RoomKind, x: int, y: int, w: int, h: int, stature: int, c: (int, int)) -> bool {
    exists|d: int| 0 <= d < shadow_depth(stature) && #[trigger] strip_cell(host, x, y, w, h, d, c)
}

/// Whether the shadow of a standing footprint reaches into rect `b`.
pub open spec fn shadow_meets(
    host: RoomKind,
    x: int,
    y: int,
    w: int,
    h: int,
    stature: int,
    b: (u8, u8, u8, u8),
) -> bool {
    exists|c: (int, int)|
        #[trigger] in_shadow(host, x, y, w, h, stature, c) && spec_covers(
            b.0 as int,
            b.1 as int,
            b.2 as int,
            b.3 as int,
            c.0,
            c.1,
        )
}

/// Whether `c` is a cell of the sequence, read as integers.
pub open spec fn holds_cell(s: Seq<(u8, u8)>, c: (int, int)) -> bool {
    exists|i: int| 0 <= i < s.len() && (#[trigger] s[i]).0 as int == c.0 && s[i].1 as int == c.1
}

/// Pushing a cell keeps every cell a sequence held, adds that one, and
/// leaves the earlier entries where they were.
proof fn lemma_push_holds(s: Seq<(u8, u8)>, v: (u8, u8))
    ensures
        forall|c: (int, int)| holds_cell(s, c) ==> #[trigger] holds_cell(s.push(v), c),
        holds_cell(s.push(v), (v.0 as int, v.1 as int)),
        forall|i: int| 0 <= i < s.len() ==> #[trigger] s.push(v)[i] == s[i],
{
    assert forall|c: (int, int)| holds_cell(s, c) implies #[trigger] holds_cell(s.push(v), c) by {
        let i = choose|i: int| 0 <= i < s.len() && (#[trigger] s[i]).0 as int == c.0 && s[i].1 as int == c.1;
        assert(s.push(v)[i] == s[i]);
    }
    assert(s.push(v)[s.len() as int] == v);
}

/// The wall cells a standing floor footprint shadows: for each footprint
/// edge lying along a baseboard seam, the wall cells directly behind it,
/// baseboard upward through the piece's stature.
fn shadow_cells(host: RoomKind, x: u8, y: u8, w: u8, h: u8, stature: u8) -> (r: Vec<(u8, u8)>)
    requires
        x + w < 256,
        y + h < 256,
    ensures
        forall|i: int|
            0 <= i < r.len() ==> in_shadow(
                host,
                x as int,
                y as int,
                w as int,
                h as int,
                stature as int,
                ((#[trigger] r@[i]).0 as int, r@[i].1 as int),
            ),
        forall|c: (int, int)|
            #[trigger] in_shadow(host, x as int, y as int, w as int, h as int, stature as int, c) ==> holds_cell(
                r@,
                c,
            ),
{
    let (fx, fy, fw, fh) = host.floor_rect();
    let ghost (xi, yi, wi, hi, si) = (x as int, y as int, w as int, h as int, stature as int);
    let mut cells: Vec<(u8, u8)> = Vec::new();
    let depth_max: u8 = if stature < 3 {
        stature
    } else {
        3
    };
    let mut depth: u8 = 0;
    while depth < depth_max
        invariant
            depth <= depth_max,
            depth_max as int == shadow_depth(si),
            (fx, fy, fw, fh) == (3u8, 3u8, host.spec_floor().0, host.spec_floor().1),
            x + w < 256,
            y + h < 256,
            (xi, yi, wi, hi, si) == (x as int, y as int, w as int, h as int, stature as int),
            forall|i: int|
                0 <= i < cells.len() ==> in_shadow(host, xi, yi, wi, hi, si, ((#[trigger] cells@[i]).0 as int, cells@[i].1 as int)),
            forall|d: int, c: (int, int)|
                0 <= d < depth && #[trigger] strip_cell(host, xi, yi, wi, hi, d, c) ==> holds_cell(cells@, c),
        decreases depth_max - depth,
    {
        let mut cx: u8 = x;
        while cx < x + w
            invariant
                depth < depth_max,
                x <= cx <= x + w,
                depth_max as int == shadow_depth(si),
                (fx, fy, fw, fh) == (3u8, 3u8, host.spec_floor().0, host.spec_floor().1),
                x + w < 256,
                y + h < 256,
                (xi, yi, wi, hi, si) == (x as int, y as int, w as int, h as int, stature as int),
                forall|i: int|
                    0 <= i < cells.len() ==> in_shadow(host, xi, yi, wi, hi, si, ((#[trigger] cells@[i]).0 as int, cells@[i].1 as int)),
                forall|d: int, c: (int, int)|
                    0 <= d < depth && #[trigger] strip_cell(host, xi, yi, wi, hi, d, c) ==> holds_cell(cells@, c),
                forall|c: (int, int)|
                    xi <= c.0 < cx && ((yi == 3 && c.1 == 2 - depth) || (yi + hi == 3 + host.depth() && c.1 == 3
                        + host.depth() + depth)) ==> #[trigger] holds_cell(cells@, c),
            decreases x + w - cx,
        {
            let ghost row_start = cells@;
            if y == fy {
                let cell = (cx, fy - 1 - depth);
                proof {
                    assert(strip_cell(host, xi, yi, wi, hi, depth as int, (cell.0 as int, cell.1 as int)));
                }
                proof {
                    lemma_push_holds(cells@, cell);
                    assert(in_shadow(host, xi, yi, wi, hi, si, (cell.0 as int, cell.1 as int)));
                }
                cells.push(cell);
            }
            if y + h == fy + fh {
                let cell = (cx, fy + fh + depth);
                proof {
                    assert(strip_cell(host, xi, yi, wi, hi, depth as int, (cell.0 as int, cell.1 as int)));
                }
                proof {
                    lemma_push_holds(cells@, cell);
                    assert(in_shadow(host, xi, yi, wi, hi, si, (cell.0 as int, cell.1 as int)));
                }
                cells.push(cell);
            }
            proof {
                assert forall|c: (int, int)|
                    xi <= c.0 < cx + 1 && ((yi == 3 && c.1 == 2 - depth) || (yi + hi == 3 + host.depth() && c.1 == 3
                        + host.depth() + depth)) implies #[trigger] holds_cell(cells@, c) by {
                    if c.0 < cx {
                        assert(holds_cell(row_start, c));
                    }
                }
                assert forall|d: int, c: (int, int)|
                    0 <= d < depth && #[trigger] strip_cell(host, xi, yi, wi, hi, d, c) implies holds_cell(cells@, c) by {
                    assert(holds_cell(row_start, c));
                }
            }
            cx = cx + 1;
        }
        let mut cy: u8 = y;
        while cy < y + h
            invariant
                depth < depth_max,
                y <= cy <= y + h,
                depth_max as int == shadow_depth(si),
                (fx, fy, fw, fh) == (3u8, 3u8, host.spec_floor().0, host.spec_floor().1),
                x + w < 256,
                y + h < 256,
                (xi, yi, wi, hi, si) == (x as int, y as int, w as int, h as int, stature as int),
                forall|i: int|
                    0 <= i < cells.len() ==> in_shadow(host, xi, yi, wi, hi, si, ((#[trigger] cells@[i]).0 as int, cells@[i].1 as int)),
                forall|d: int, c: (int, int)|
                    0 <= d < depth && #[trigger] strip_cell(host, xi, yi, wi, hi, d, c) ==> holds_cell(cells@, c),
                forall|c: (int, int)|
                    xi <= c.0 < xi + wi && ((yi == 3 && c.1 == 2 - depth) || (yi + hi == 3 + host.depth() && c.1
                        == 3 + host.depth() + depth)) ==> #[trigger] holds_cell(cells@, c),
                forall|c: (int, int)|
                    yi <= c.1 < cy && ((xi == 3 && c.0 == 2 - depth) || (xi + wi == 3 + host.width() && c.0 == 3
                        + host.width() + depth)) ==> #[trigger] holds_cell(cells@, c),
            decreases y + h - cy,
        {
            let ghost row_start = cells@;
            if x == fx {
                let cell = (fx - 1 - depth, cy);
                proof {
                    assert(strip_cell(host, xi, yi, wi, hi, depth as int, (cell.0 as int, cell.1 as int)));
                }
                proof {
                    lemma_push_holds(cells@, cell);
                    assert(in_shadow(host, xi, yi, wi, hi, si, (cell.0 as int, cell.1 as int)));
                }
                cells.push(cell);
            }
            if x + w == fx + fw {
                let cell = (fx + fw + depth, cy);
                proof {
                    assert(strip_cell(host, xi, yi, wi, hi, depth as int, (cell.0 as int, cell.1 as int)));
                }
                proof {
                    lemma_push_holds(cells@, cell);
                    assert(in_shadow(host, xi, yi, wi, hi, si, (cell.0 as int, cell.1 as int)));
                }
                cells.push(cell);
            }
            proof {
                assert forall|c: (int, int)|
                    yi <= c.1 < cy + 1 && ((xi == 3 && c.0 == 2 - depth) || (xi + wi == 3 + host.width() && c.0 == 3
                        + host.width() + depth)) implies #[trigger] holds_cell(cells@, c) by {
                    if c.1 < cy {
                        assert(holds_cell(row_start, c));
                    }
                }
                assert forall|c: (int, int)|
                    xi <= c.0 < xi + wi && ((yi == 3 && c.1 == 2 - depth) || (yi + hi == 3 + host.depth() && c.1
                        == 3 + host.depth() + depth)) implies #[trigger] holds_cell(cells@, c) by {
                    assert(holds_cell(row_start, c));
                }
                assert forall|d: int, c: (int, int)|
                    0 <= d < depth && #[trigger] strip_cell(host, xi, yi, wi, hi, d, c) implies holds_cell(cells@, c) by {
                    assert(holds_cell(row_start, c));
                }
            }
            cy = cy + 1;
        }
        proof {
            assert forall|d: int, c: (int, int)|
                0 <= d < depth + 1 && #[trigger] strip_cell(host, xi, yi, wi, hi, d, c) implies holds_cell(cells@, c) by {
                if d == depth {
                }
            }
        }
        depth = depth + 1;
    }
    cells
}


/// Whether some cell of footprint `(x, y, w, h)` reads as tile `t`.
pub open spec fn footprint_holds(host: RoomKind, x: int, y: int, w: int, h: int, t: Tile) -> bool {
    exists|c: (int, int)| spec_covers(x, y, w, h, c.0, c.1) && #[trigger] host.spec_tile_of(c.0, c.1) == Some(t)
}

/// Whether some tile a footprint covers is of class `t`.
fn footprint_tiles(host: RoomKind, x: u8, y: u8, w: u8, h: u8, t: Tile) -> (r: bool)
    requires
        x + w < 256,
        y + h < 256,
    ensures
        r == footprint_holds(host, x as int, y as int, w as int, h as int, t),
{
    let mut cy: u8 = y;
    while cy < y + h
        invariant
            y <= cy <= y + h,
            x + w < 256,
            y + h < 256,
            forall|c: (int, int)|
                spec_covers(x as int, y as int, w as int, h as int, c.0, c.1) && c.1 < cy ==> #[trigger] host.spec_tile_of(
                    c.0,
                    c.1,
                ) != Some(t),
        decreases y + h - cy,
    {
        let mut cx: u8 = x;
        while cx < x + w
            invariant
                y <= cy < y + h,
                x <= cx <= x + w,
                x + w < 256,
                y + h < 256,
                forall|c: (int, int)|
                    spec_covers(x as int, y as int, w as int, h as int, c.0, c.1) && (c.1 < cy || (c.1 == cy
                        && c.0 < cx)) ==> #[trigger] host.spec_tile_of(c.0, c.1) != Some(t),
            decreases x + w - cx,
        {
            if host.tile_of(cx, cy) == Some(t) {
                assert(spec_covers(x as int, y as int, w as int, h as int, cx as int, cy as int));
                assert(host.spec_tile_of((cx as int, cy as int).0, (cx as int, cy as int).1) == Some(t));
                return true;
            }
            cx = cx + 1;
        }
        cy = cy + 1;
    }
    false
}

/// Whether a floor footprint touches the floor's hull edge.
pub open spec fn spec_touches_hull(host: RoomKind, x: int, y: int, w: int, h: int) -> bool {
    x == 3 || y == 3 || x + w == 3 + host.width() || y + h == 3 + host.depth()
}

/// Whether a floor footprint touches the floor's hull edge (any side of
/// the floor chart — every side of a room is hull).
fn touches_hull(host: RoomKind, x: u8, y: u8, w: u8, h: u8) -> (r: bool)
    requires
        x + w < 256,
        y + h < 256,
    ensures
        r == spec_touches_hull(host, x as int, y as int, w as int, h as int),
{
    let (fx, fy, fw, fh) = host.floor_rect();
    x == fx || y == fy || x + w == fx + fw || y + h == fy + fh
}

/// Whether some cell of `cells` lies in rect `b`.
pub open spec fn cells_meet(cells: Seq<(u8, u8)>, b: (u8, u8, u8, u8)) -> bool {
    exists|i: int|
        0 <= i < cells.len() && spec_covers(
            b.0 as int,
            b.1 as int,
            b.2 as int,
            b.3 as int,
            (#[trigger] cells[i]).0 as int,
            cells[i].1 as int,
        )
}

/// Whether some cell of `cells` lies in rect `b`.
fn any_covered(cells: &Vec<(u8, u8)>, b: (u8, u8, u8, u8)) -> (r: bool)
    requires
        b.0 + b.2 < 256,
        b.1 + b.3 < 256,
    ensures
        r == cells_meet(cells@, b),
{
    let mut i: usize = 0;
    while i < cells.len()
        invariant
            i <= cells@.len(),
            b.0 + b.2 < 256,
            b.1 + b.3 < 256,
            forall|j: int|
                0 <= j < i ==> !spec_covers(
                    b.0 as int,
                    b.1 as int,
                    b.2 as int,
                    b.3 as int,
                    (#[trigger] cells@[j]).0 as int,
                    cells@[j].1 as int,
                ),
        decreases cells@.len() - i,
    {
        let (sx, sy) = cells[i];
        if covers(b.0, b.1, b.2, b.3, sx, sy) {
            return true;
        }
        i = i + 1;
    }
    false
}

/// The cells of a shadow list meet a rect exactly when the shadow does.
proof fn lemma_shadow_meets(
    cells: Seq<(u8, u8)>,
    host: RoomKind,
    x: int,
    y: int,
    w: int,
    h: int,
    stature: int,
    b: (u8, u8, u8, u8),
)
    requires
        forall|i: int|
            0 <= i < cells.len() ==> in_shadow(host, x, y, w, h, stature, ((#[trigger] cells[i]).0 as int, cells[i].1 as int)),
        forall|c: (int, int)| #[trigger] in_shadow(host, x, y, w, h, stature, c) ==> holds_cell(cells, c),
    ensures
        cells_meet(cells, b) == shadow_meets(host, x, y, w, h, stature, b),
{
    if cells_meet(cells, b) {
        let i = choose|i: int|
            0 <= i < cells.len() && spec_covers(
                b.0 as int,
                b.1 as int,
                b.2 as int,
                b.3 as int,
                (#[trigger] cells[i]).0 as int,
                cells[i].1 as int,
            );
        let c = (cells[i].0 as int, cells[i].1 as int);
        assert(in_shadow(host, x, y, w, h, stature, c));
    }
    if shadow_meets(host, x, y, w, h, stature, b) {
        let c = choose|c: (int, int)|
            #[trigger] in_shadow(host, x, y, w, h, stature, c) && spec_covers(
                b.0 as int,
                b.1 as int,
                b.2 as int,
                b.3 as int,
                c.0,
                c.1,
            );
        assert(holds_cell(cells, c));
        let i = choose|i: int| 0 <= i < cells.len() && (#[trigger] cells[i]).0 as int == c.0 && cells[i].1 as int == c.1;
        assert(spec_covers(b.0 as int, b.1 as int, b.2 as int, b.3 as int, cells[i].0 as int, cells[i].1 as int));
    }
}

/// The shadow a standing footprint casts meets rect `b`.
fn shadow_reaches(host: RoomKind, x: u8, y: u8, w: u8, h: u8, stature: u8, b: (u8, u8, u8, u8)) -> (r: bool)
    requires
        x + w < 256,
        y + h < 256,
        b.0 + b.2 < 256,
        b.1 + b.3 < 256,
    ensures
        r == shadow_meets(host, x as int, y as int, w as int, h as int, stature as int, b),
{
    let cells = shadow_cells(host, x, y, w, h, stature);
    proof {
        lemma_shadow_meets(cells@, host, x as int, y as int, w as int, h as int, stature as int, b);
    }
    any_covered(&cells, b)
}

/// Whether the piece `kind` anchored at `(ox, oy)` of `host`'s net shares
/// a cell with footprint `mine`. A berth off the net covers nothing.
pub open spec fn spec_covers_same(host: RoomKind, kind: Kind, ox: u8, oy: u8, mine: (u8, u8, u8, u8)) -> bool {
    match spec_plan(host, kind, ox as int, oy as int) {
        Some(p) => spec_overlaps(mine, (ox, oy, p.0, p.1)),
        None => false,
    }
}

/// Whether the piece `kind` anchored at `(ox, oy)` of `host`'s net
/// shares any cell with the footprint `mine`.
fn covers_same(host: RoomKind, kind: Kind, ox: u8, oy: u8, mine: (u8, u8, u8, u8)) -> (r: bool)
    requires
        mine.0 + mine.2 < 256,
        mine.1 + mine.3 < 256,
    ensures
        r == spec_covers_same(host, kind, ox, oy, mine),
{
    match plan(host, kind, ox, oy) {
        Some((ow, oh)) => {
            proof {
                lemma_net_in_grid(host, ox as int, oy as int);
            }
            overlaps(mine, (ox, oy, ow, oh))
        },
        None => false,
    }
}


/// Whether `kind` is suspicious cargo.
pub open spec fn spec_suspicious(kind: Kind) -> bool {
    kind.spec_tag() == Some(Tag::Suspicious)
}

/// Whether `kind` is volatile cargo.
pub open spec fn spec_volatile(kind: Kind) -> bool {
    kind.spec_tag() == Some(Tag::Volatile)
}

/// What one other piece says about `kind` anchored with footprint `fp`
/// in room `room` (a `host`): a second suspicious piece aboard, a
/// collision of cells or of standing volume, or two volatile pieces side
/// by side — or nothing. Only room berths take part.
pub open spec fn hold_verdict(
    rooms: Rooms,
    host: RoomKind,
    room: RoomId,
    kind: Kind,
    fp: (u8, u8, u8, u8),
    standing: bool,
    other: Piece,
) -> Option<Violation> {
    match other.loc {
        Loc::Hold { room: oroom, x: ox, y: oy } => {
            if spec_suspicious(kind) && rooms.riding_at(room as int) && spec_suspicious(other.kind)
                && rooms.riding_at(oroom as int) {
                Some(Violation::Suspicious)
            } else if oroom != room {
                None
            } else {
                match spec_plan(host, other.kind, ox as int, oy as int) {
                    None => None,
                    Some(op) => {
                        let theirs = (ox, oy, op.0, op.1);
                        if spec_overlaps(fp, theirs) {
                            Some(Violation::Overlap)
                        } else if standing && shadow_meets(
                            host,
                            fp.0 as int,
                            fp.1 as int,
                            fp.2 as int,
                            fp.3 as int,
                            kind.spec_extent().2 as int,
                            theirs,
                        ) {
                            Some(Violation::Overlap)
                        } else if !standing && host.spec_surface_of(ox as int, oy as int) == Some(Surf::Floor)
                            && shadow_meets(
                            host,
                            ox as int,
                            oy as int,
                            op.0 as int,
                            op.1 as int,
                            other.kind.spec_extent().2 as int,
                            fp,
                        ) {
                            Some(Violation::Overlap)
                        } else if spec_volatile(kind) && spec_volatile(other.kind) && spec_adjacent(fp, theirs) {
                            Some(Violation::Volatile)
                        } else {
                            None
                        }
                    },
                }
            }
        },
        _ => None,
    }
}

/// The verdict of the first piece from `i` on, other than `id`, that
/// refuses the placement — pieces in stowage order.
pub open spec fn first_conflict(
    rooms: Rooms,
    pieces: Seq<Piece>,
    id: u32,
    host: RoomKind,
    room: RoomId,
    kind: Kind,
    fp: (u8, u8, u8, u8),
    standing: bool,
    i: int,
) -> Option<Violation>
    decreases pieces.len() - i,
{
    if i < 0 || i >= pieces.len() {
        None
    } else if pieces[i].id != id && hold_verdict(rooms, host, room, kind, fp, standing, pieces[i]) is Some {
        hold_verdict(rooms, host, room, kind, fp, standing, pieces[i])
    } else {
        first_conflict(rooms, pieces, id, host, room, kind, fp, standing, i + 1)
    }
}

/// The stowage verdict for `kind` anchored at `(room, x, y)`, the rules
/// asked in a fixed order: the footprint on one chart of the net, no
/// threshold, no fixture, the kind's mount, the cold edge, and then every
/// other piece in stowage order.
pub open spec fn spec_placement(
    rooms: Rooms,
    pieces: Seq<Piece>,
    id: u32,
    kind: Kind,
    room: RoomId,
    x: u8,
    y: u8,
) -> Result<(), Violation> {
    match rooms.kind_at(room as int) {
        None => Err(Violation::Bounds),
        Some(host) => match spec_plan(host, kind, x as int, y as int) {
            None => Err(Violation::Bounds),
            Some(p) => {
                let (w, h) = p;
                if x + w > host.spec_grid().0 || y + h > host.spec_grid().1 {
                    Err(Violation::Bounds)
                } else {
                    match spec_footprint_surface(host, x as int, y as int, w as int, h as int) {
                        None => Err(Violation::Bounds),
                        Some(surf) => if footprint_holds(host, x as int, y as int, w as int, h as int, Tile::Threshold) {
                            Err(Violation::Threshold)
                        } else if footprint_holds(host, x as int, y as int, w as int, h as int, Tile::Fixture) {
                            Err(Violation::Fixture)
                        } else if !spec_mount_accepts(kind.spec_mount(), surf) {
                            Err(Violation::Affix(kind.spec_mount()))
                        } else if kind.spec_tag() == Some(Tag::Cryo) && !spec_touches_hull(
                            host,
                            x as int,
                            y as int,
                            w as int,
                            h as int,
                        ) {
                            Err(Violation::Cryo)
                        } else {
                            match first_conflict(
                                rooms,
                                pieces,
                                id,
                                host,
                                room,
                                kind,
                                (x, y, w, h),
                                surf == Surf::Floor,
                                0,
                            ) {
                                Some(v) => Err(v),
                                None => Ok(()),
                            }
                        },
                    }
                }
            },
        },
    }
}

/// The verdict a conflict search comes to.
pub open spec fn refusal_of(conflict: Option<Violation>) -> Result<(), Violation> {
    match conflict {
        Some(v) => Err(v),
        None => Ok(()),
    }
}

/// Whether `kind` may be anchored at `(room, x, y)` given every other
/// piece in `pieces`. The piece with `id` is ignored, so a held piece
/// never collides with its own old footprint.
pub fn placement_legal(
    rooms: &Rooms,
    pieces: &[Piece],
    id: u32,
    kind: Kind,
    room: RoomId,
    x: u8,
    y: u8,
) -> (r: bool)
    ensures
        r == spec_placement(*rooms, pieces@, id, kind, room, x, y) is Ok,
{
    placement_check(rooms, pieces, id, kind, room, x, y).is_ok()
}

/// [`placement_legal`], but naming the rule that refused.
///
/// Checks run in a fixed order (bounds and chart, threshold, fixture,
/// mount, cryo, then per-piece suspicious / overlap-and-shadow /
/// volatile in stowage order) so the reported violation is
/// deterministic. Nothing here reasons about where a body may walk: a
/// berth is refused for what it collides with, never for what it fences
/// off.
pub fn placement_check(
    rooms: &Rooms,
    pieces: &[Piece],
    id: u32,
    kind: Kind,
    room: RoomId,
    x: u8,
    y: u8,
) -> (r: Result<(), Violation>)
    ensures
        r == spec_placement(*rooms, pieces@, id, kind, room, x, y),
{
    let host = match rooms.kind(room) {
        Some(h) => h,
        None => return Err(Violation::Bounds),
    };
    let (w, h) = match plan(host, kind, x, y) {
        Some(p) => p,
        None => return Err(Violation::Bounds),
    };
    proof {
        lemma_net_in_grid(host, x as int, y as int);
    }
    let (cols, rows) = host.grid();
    if x + w > cols || y + h > rows {
        return Err(Violation::Bounds);
    }
    let surf = match footprint_surface(host, x, y, w, h) {
        Some(s) => s,
        None => return Err(Violation::Bounds),
    };
    if footprint_tiles(host, x, y, w, h, Tile::Threshold) {
        return Err(Violation::Threshold);
    }
    if footprint_tiles(host, x, y, w, h, Tile::Fixture) {
        return Err(Violation::Fixture);
    }
    let mount = kind.mount();
    if !mount_accepts(mount, surf) {
        return Err(Violation::Affix(mount));
    }
    let standing = surf == Surf::Floor;
    if kind.tag() == Some(Tag::Cryo) && !touches_hull(host, x, y, w, h) {
        return Err(Violation::Cryo);
    }
    let fp = (x, y, w, h);
    let suspicious_here = kind.tag() == Some(Tag::Suspicious) && rooms.riding(room);
    let volatile_here = kind.tag() == Some(Tag::Volatile);
    let stature = kind.stature();
    let mut i: usize = 0;
    while i < pieces.len()
        invariant
            i <= pieces@.len(),
            rooms.kind_at(room as int) == Some(host),
            x + w < 256,
            y + h < 256,
            fp == (x, y, w, h),
            suspicious_here == (spec_suspicious(kind) && rooms.riding_at(room as int)),
            volatile_here == spec_volatile(kind),
            stature == kind.spec_extent().2,
            standing == (surf == Surf::Floor),
            spec_placement(*rooms, pieces@, id, kind, room, x, y) == refusal_of(
                first_conflict(*rooms, pieces@, id, host, room, kind, fp, standing, 0),
            ),
            first_conflict(*rooms, pieces@, id, host, room, kind, fp, standing, 0) == first_conflict(
                *rooms,
                pieces@,
                id,
                host,
                room,
                kind,
                fp,
                standing,
                i as int,
            ),
        decreases pieces@.len() - i,
    {
        let other = pieces[i];
        assert(other == pieces@[i as int]);
        if other.id != id {
            if let Loc::Hold { room: oroom, x: ox, y: oy } = other.loc {
                if suspicious_here && other.kind.tag() == Some(Tag::Suspicious) && rooms.riding(oroom) {
                    proof {
                            assert(hold_verdict(*rooms, host, room, kind, fp, standing, pieces@[i as int]) == Some(Violation::Suspicious));
                            assert(first_conflict(*rooms, pieces@, id, host, room, kind, fp, standing, i as int) == Some(Violation::Suspicious));
                            assert(first_conflict(*rooms, pieces@, id, host, room, kind, fp, standing, 0) == Some(Violation::Suspicious));
                        }
                        return Err(Violation::Suspicious);
                }
                if oroom == room {
                    if let Some((ow, oh)) = plan(host, other.kind, ox, oy) {
                        proof {
                            lemma_net_in_grid(host, ox as int, oy as int);
                        }
                        let theirs = (ox, oy, ow, oh);
                        if overlaps(fp, theirs) {
                            proof {
                            assert(hold_verdict(*rooms, host, room, kind, fp, standing, pieces@[i as int]) == Some(Violation::Overlap));
                            assert(first_conflict(*rooms, pieces@, id, host, room, kind, fp, standing, i as int) == Some(Violation::Overlap));
                            assert(first_conflict(*rooms, pieces@, id, host, room, kind, fp, standing, 0) == Some(Violation::Overlap));
                        }
                        return Err(Violation::Overlap);
                        }
                        if standing && shadow_reaches(host, x, y, w, h, stature, theirs) {
                            proof {
                            assert(hold_verdict(*rooms, host, room, kind, fp, standing, pieces@[i as int]) == Some(Violation::Overlap));
                            assert(first_conflict(*rooms, pieces@, id, host, room, kind, fp, standing, i as int) == Some(Violation::Overlap));
                            assert(first_conflict(*rooms, pieces@, id, host, room, kind, fp, standing, 0) == Some(Violation::Overlap));
                        }
                        return Err(Violation::Overlap);
                        }
                        if !standing && host.surface_of(ox, oy) == Some(Surf::Floor) && shadow_reaches(
                            host,
                            ox,
                            oy,
                            ow,
                            oh,
                            other.kind.stature(),
                            fp,
                        ) {
                            proof {
                            assert(hold_verdict(*rooms, host, room, kind, fp, standing, pieces@[i as int]) == Some(Violation::Overlap));
                            assert(first_conflict(*rooms, pieces@, id, host, room, kind, fp, standing, i as int) == Some(Violation::Overlap));
                            assert(first_conflict(*rooms, pieces@, id, host, room, kind, fp, standing, 0) == Some(Violation::Overlap));
                        }
                        return Err(Violation::Overlap);
                        }
                        if volatile_here && other.kind.tag() == Some(Tag::Volatile) && adjacent(fp, theirs) {
                            proof {
                            assert(hold_verdict(*rooms, host, room, kind, fp, standing, pieces@[i as int]) == Some(Violation::Volatile));
                            assert(first_conflict(*rooms, pieces@, id, host, room, kind, fp, standing, i as int) == Some(Violation::Volatile));
                            assert(first_conflict(*rooms, pieces@, id, host, room, kind, fp, standing, 0) == Some(Violation::Volatile));
                        }
                        return Err(Violation::Volatile);
                        }
                    }
                }
            }
        }
        i = i + 1;
    }
    Ok(())
}


/// Whether `b` is a berth aboard: a cell within the grid of a room that
/// rides with the ship.
pub open spec fn aboard_berth(rooms: Rooms, b: (RoomId, u8, u8)) -> bool {
    &&& rooms.riding_at(b.0 as int)
    &&& b.1 < rooms.kind_at(b.0 as int)->0.spec_grid().0
    &&& b.2 < rooms.kind_at(b.0 as int)->0.spec_grid().1
}

/// Whether berth `a` comes before berth `b` in scan order: rooms in id
/// order, then row-major.
pub open spec fn scanned_before(a: (RoomId, u8, u8), b: (RoomId, u8, u8)) -> bool {
    a.0 < b.0 || (a.0 == b.0 && (a.2 < b.2 || (a.2 == b.2 && a.1 < b.1)))
}

/// Whether `kind` may occupy berth `b`.
pub open spec fn fits_at(rooms: Rooms, pieces: Seq<Piece>, id: u32, kind: Kind, b: (RoomId, u8, u8)) -> bool {
    spec_placement(rooms, pieces, id, kind, b.0, b.1, b.2) is Ok
}

/// The first berth (rooms in id order, then row-major) where `kind` may
/// legally sit aboard — riding rooms only, because "aboard" means the
/// part of the ship that leaves with you.
///
/// "First legal spot, even if that is a bad idea" is the contract, so
/// every caller agrees on what "first" means. Coverings have no
/// occupancy berth at all ([`dress_fit`] is their scan).
pub fn first_fit(rooms: &Rooms, pieces: &[Piece], id: u32, kind: Kind) -> (r: Option<(RoomId, u8, u8)>)
    ensures
        kind.spec_covering() ==> r is None,
        !kind.spec_covering() ==> match r {
            Some(b) => aboard_berth(*rooms, b) && fits_at(*rooms, pieces@, id, kind, b) && forall|c: (RoomId, u8, u8)|
                aboard_berth(*rooms, c) && scanned_before(c, b) ==> !#[trigger] fits_at(*rooms, pieces@, id, kind, c),
            None => forall|c: (RoomId, u8, u8)| aboard_berth(*rooms, c) ==> !#[trigger] fits_at(*rooms, pieces@, id, kind, c),
        },
{
    if kind.covering() {
        return None;
    }
    let list = rooms.iter();
    let mut k: usize = 0;
    while k < list.len()
        invariant
            k <= list@.len(),
            !kind.spec_covering(),
            forall|i: int| 0 <= i < list.len() ==> #[trigger] rooms.room_at(list@[i].0 as int) == Some(list@[i].1),
            forall|i: int, j: int| 0 <= i < j < list.len() ==> list@[i].0 < list@[j].0,
            forall|id: int|
                #![trigger rooms.room_at(id)]
                rooms.present(id) ==> exists|i: int| 0 <= i < list.len() && list@[i].0 == id,
            forall|c: (RoomId, u8, u8)|
                aboard_berth(*rooms, c) && (exists|j: int| 0 <= j < k && #[trigger] list@[j].0 == c.0) ==> !#[trigger] fits_at(
                    *rooms,
                    pieces@,
                    id,
                    kind,
                    c,
                ),
        decreases list@.len() - k,
    {
        let (room, host) = list[k];
        assert(rooms.room_at(room as int) == Some(host));
        if host.kind.riding() {
            let (cols, rows) = host.kind.grid();
            let mut y: u8 = 0;
            while y < rows
                invariant
                    k < list@.len(),
                    !kind.spec_covering(),
                    list@[k as int] == (room, host),
                    rooms.room_at(room as int) == Some(host),
                    (cols, rows) == host.kind.spec_grid(),
                    host.kind.spec_riding(),
                    forall|i: int| 0 <= i < list.len() ==> #[trigger] rooms.room_at(list@[i].0 as int) == Some(list@[i].1),
                    forall|i: int, j: int| 0 <= i < j < list.len() ==> list@[i].0 < list@[j].0,
            forall|id: int|
                #![trigger rooms.room_at(id)]
                rooms.present(id) ==> exists|i: int| 0 <= i < list.len() && list@[i].0 == id,
                    forall|c: (RoomId, u8, u8)|
                        aboard_berth(*rooms, c) && (exists|j: int| 0 <= j < k && #[trigger] list@[j].0 == c.0) ==> !#[trigger] fits_at(
                            *rooms,
                            pieces@,
                            id,
                            kind,
                            c,
                        ),
                    forall|c: (RoomId, u8, u8)|
                        aboard_berth(*rooms, c) && c.0 == room && c.2 < y ==> !#[trigger] fits_at(*rooms, pieces@, id, kind, c),
                decreases rows - y,
            {
                let mut x: u8 = 0;
                while x < cols
                    invariant
                        k < list@.len(),
                    !kind.spec_covering(),
                        y < rows,
                        list@[k as int] == (room, host),
                        rooms.room_at(room as int) == Some(host),
                        (cols, rows) == host.kind.spec_grid(),
                        host.kind.spec_riding(),
                    host.kind.spec_riding(),
                        forall|i: int| 0 <= i < list.len() ==> #[trigger] rooms.room_at(list@[i].0 as int) == Some(list@[i].1),
                        forall|i: int, j: int| 0 <= i < j < list.len() ==> list@[i].0 < list@[j].0,
            forall|id: int|
                #![trigger rooms.room_at(id)]
                rooms.present(id) ==> exists|i: int| 0 <= i < list.len() && list@[i].0 == id,
                        forall|c: (RoomId, u8, u8)|
                            aboard_berth(*rooms, c) && (exists|j: int| 0 <= j < k && #[trigger] list@[j].0 == c.0) ==> !#[trigger] fits_at(
                                *rooms,
                                pieces@,
                                id,
                                kind,
                                c,
                            ),
                        forall|c: (RoomId, u8, u8)|
                            aboard_berth(*rooms, c) && c.0 == room && (c.2 < y || (c.2 == y && c.1 < x)) ==> !#[trigger] fits_at(
                                *rooms,
                                pieces@,
                                id,
                                kind,
                                c,
                            ),
                    decreases cols - x,
                {
                    if placement_legal(rooms, pieces, id, kind, room, x, y) {
                        proof {
                            assert forall|c: (RoomId, u8, u8)|
                                aboard_berth(*rooms, c) && scanned_before(c, (room, x, y)) implies !#[trigger] fits_at(
                                *rooms,
                                pieces@,
                                id,
                                kind,
                                c,
                            ) by {
                                if c.0 < room {
                                    assert(rooms.present(c.0 as int));
                                    assert(rooms.room_at(c.0 as int) is Some);
                                    let j = choose|j: int| 0 <= j < list.len() && list@[j].0 == c.0;
                                    if j >= k {
                                        if j > k {
                                            assert(list@[k as int].0 < list@[j].0);
                                        }
                                        assert(false);
                                    }
                                }
                            }
                        }
                        return Some((room, x, y));
                    }
                    x = x + 1;
                }
                y = y + 1;
            }
        }
        proof {
            assert forall|c: (RoomId, u8, u8)|
                aboard_berth(*rooms, c) && (exists|j: int| 0 <= j < k + 1 && #[trigger] list@[j].0 == c.0) implies !#[trigger] fits_at(
                *rooms,
                pieces@,
                id,
                kind,
                c,
            ) by {
                let j = choose|j: int| 0 <= j < k + 1 && #[trigger] list@[j].0 == c.0;
                if j == k {
                    assert(c.0 == room);
                }
            }
        }
        k = k + 1;
    }
    proof {
        assert forall|c: (RoomId, u8, u8)| aboard_berth(*rooms, c) implies !#[trigger] fits_at(*rooms, pieces@, id, kind, c) by {
            assert(rooms.room_at(c.0 as int) is Some);
            let j = choose|j: int| 0 <= j < list.len() && list@[j].0 == c.0 as int;
            assert(list@[j].0 == c.0);
        }
    }
    None
}


/// Whether any piece other than `id` already lays a dressing, or stands
/// as cargo, on the footprint `fp` of room `room`: the first such piece
/// names the refusal.
pub open spec fn dressing_verdict(host: RoomKind, room: RoomId, fp: (u8, u8, u8, u8), other: Piece) -> Option<Violation> {
    match other.loc {
        Loc::Laid { room: oroom, x: ox, y: oy } => if oroom == room && spec_covers_same(host, other.kind, ox, oy, fp) {
            Some(Violation::Overlap)
        } else {
            None
        },
        Loc::Hold { room: oroom, x: ox, y: oy } => if oroom == room && spec_covers_same(host, other.kind, ox, oy, fp) {
            Some(Violation::Occupied)
        } else {
            None
        },
        Loc::Stow { .. } => None,
    }
}

/// The verdict of the first piece from `i` on, other than `id`, that
/// refuses a dressing on `fp`.
pub open spec fn first_dressing_conflict(
    pieces: Seq<Piece>,
    id: u32,
    host: RoomKind,
    room: RoomId,
    fp: (u8, u8, u8, u8),
    i: int,
) -> Option<Violation>
    decreases pieces.len() - i,
{
    if i < 0 || i >= pieces.len() {
        None
    } else if pieces[i].id != id && dressing_verdict(host, room, fp, pieces[i]) is Some {
        dressing_verdict(host, room, fp, pieces[i])
    } else {
        first_dressing_conflict(pieces, id, host, room, fp, i + 1)
    }
}

/// The surface a restricted covering names, if it names one.
pub open spec fn covering_mount(kind: Kind) -> Option<Mount> {
    match kind.spec_tag() {
        Some(Tag::Covering(Some(m))) => Some(m),
        _ => None,
    }
}

/// The dressing verdict for covering `kind` laid at `(room, x, y)`: the
/// footprint on one chart of the net, no threshold, no fixture, the
/// covering's own surface, then no other dressing and no standing cargo
/// on it, pieces in stowage order.
pub open spec fn spec_dressing(
    rooms: Rooms,
    pieces: Seq<Piece>,
    id: u32,
    kind: Kind,
    room: RoomId,
    x: u8,
    y: u8,
) -> Result<(), Violation> {
    match rooms.kind_at(room as int) {
        None => Err(Violation::Bounds),
        Some(host) => match spec_plan(host, kind, x as int, y as int) {
            None => Err(Violation::Bounds),
            Some(p) => {
                let (w, h) = p;
                if x + w > host.spec_grid().0 || y + h > host.spec_grid().1 {
                    Err(Violation::Bounds)
                } else {
                    match spec_footprint_surface(host, x as int, y as int, w as int, h as int) {
                        None => Err(Violation::Bounds),
                        Some(surf) => if footprint_holds(host, x as int, y as int, w as int, h as int, Tile::Threshold) {
                            Err(Violation::Threshold)
                        } else if footprint_holds(host, x as int, y as int, w as int, h as int, Tile::Fixture) {
                            Err(Violation::Fixture)
                        } else if covering_mount(kind) is Some && !spec_mount_accepts(covering_mount(kind)->0, surf) {
                            Err(Violation::Affix(covering_mount(kind)->0))
                        } else {
                            refusal_of(first_dressing_conflict(pieces, id, host, room, (x, y, w, h), 0))
                        },
                    }
                }
            },
        },
    }
}

/// Whether covering `kind` may be laid at anchor `(room, x, y)`: the
/// dressing layer's own [`placement_check`], reusing the violation ladder
/// whole and consulting every other piece in a fixed order.
pub fn dressing_check(
    rooms: &Rooms,
    pieces: &[Piece],
    id: u32,
    kind: Kind,
    room: RoomId,
    x: u8,
    y: u8,
) -> (r: Result<(), Violation>)
    requires
        kind.spec_covering(),
    ensures
        r == spec_dressing(*rooms, pieces@, id, kind, room, x, y),
{
    let host = match rooms.kind(room) {
        Some(h) => h,
        None => return Err(Violation::Bounds),
    };
    let (w, h) = match plan(host, kind, x, y) {
        Some(p) => p,
        None => return Err(Violation::Bounds),
    };
    proof {
        lemma_net_in_grid(host, x as int, y as int);
    }
    let (cols, rows) = host.grid();
    if x + w > cols || y + h > rows {
        return Err(Violation::Bounds);
    }
    let surf = match footprint_surface(host, x, y, w, h) {
        Some(s) => s,
        None => return Err(Violation::Bounds),
    };
    if footprint_tiles(host, x, y, w, h, Tile::Threshold) {
        return Err(Violation::Threshold);
    }
    if footprint_tiles(host, x, y, w, h, Tile::Fixture) {
        return Err(Violation::Fixture);
    }
    if let Some(Tag::Covering(Some(mount))) = kind.tag() {
        if !mount_accepts(mount, surf) {
            return Err(Violation::Affix(mount));
        }
    }
    let fp = (x, y, w, h);
    let mut i: usize = 0;
    while i < pieces.len()
        invariant
            i <= pieces@.len(),
            x + w < 256,
            y + h < 256,
            fp == (x, y, w, h),
            spec_dressing(*rooms, pieces@, id, kind, room, x, y) == refusal_of(
                first_dressing_conflict(pieces@, id, host, room, fp, 0),
            ),
            first_dressing_conflict(pieces@, id, host, room, fp, 0) == first_dressing_conflict(
                pieces@,
                id,
                host,
                room,
                fp,
                i as int,
            ),
        decreases pieces@.len() - i,
    {
        let other = pieces[i];
        assert(other == pieces@[i as int]);
        if other.id != id {
            match other.loc {
                Loc::Laid { room: oroom, x: ox, y: oy } => {
                    if oroom == room && covers_same(host, other.kind, ox, oy, fp) {
                        return Err(Violation::Overlap);
                    }
                },
                Loc::Hold { room: oroom, x: ox, y: oy } => {
                    if oroom == room && covers_same(host, other.kind, ox, oy, fp) {
                        return Err(Violation::Occupied);
                    }
                },
                Loc::Stow { .. } => {},
            }
        }
        i = i + 1;
    }
    Ok(())
}

/// Whether covering `kind` may be laid at berth `b`.
pub open spec fn lays_at(rooms: Rooms, pieces: Seq<Piece>, id: u32, kind: Kind, b: (RoomId, u8, u8)) -> bool {
    spec_dressing(rooms, pieces, id, kind, b.0, b.1, b.2) is Ok
}

/// The first anchor (riding rooms in id order, then row-major) where
/// covering `kind` may be laid — the dressing layer's [`first_fit`].
pub fn dress_fit(rooms: &Rooms, pieces: &[Piece], id: u32, kind: Kind) -> (r: Option<(RoomId, u8, u8)>)
    requires
        kind.spec_covering(),
    ensures
        match r {
            Some(b) => aboard_berth(*rooms, b) && lays_at(*rooms, pieces@, id, kind, b) && forall|c: (RoomId, u8, u8)|
                aboard_berth(*rooms, c) && scanned_before(c, b) ==> !#[trigger] lays_at(*rooms, pieces@, id, kind, c),
            None => forall|c: (RoomId, u8, u8)| aboard_berth(*rooms, c) ==> !#[trigger] lays_at(*rooms, pieces@, id, kind, c),
        },
{
    let list = rooms.iter();
    let mut k: usize = 0;
    while k < list.len()
        invariant
            k <= list@.len(),
            kind.spec_covering(),
            forall|i: int| 0 <= i < list.len() ==> #[trigger] rooms.room_at(list@[i].0 as int) == Some(list@[i].1),
            forall|i: int, j: int| 0 <= i < j < list.len() ==> list@[i].0 < list@[j].0,
            forall|id: int|
                #![trigger rooms.room_at(id)]
                rooms.present(id) ==> exists|i: int| 0 <= i < list.len() && list@[i].0 == id,
            forall|c: (RoomId, u8, u8)|
                aboard_berth(*rooms, c) && (exists|j: int| 0 <= j < k && #[trigger] list@[j].0 == c.0) ==> !#[trigger] lays_at(
                    *rooms,
                    pieces@,
                    id,
                    kind,
                    c,
                ),
        decreases list@.len() - k,
    {
        let (room, host) = list[k];
        assert(rooms.room_at(room as int) == Some(host));
        if host.kind.riding() {
            let (cols, rows) = host.kind.grid();
            let mut y: u8 = 0;
            while y < rows
                invariant
                    k < list@.len(),
                    kind.spec_covering(),
                    list@[k as int] == (room, host),
                    rooms.room_at(room as int) == Some(host),
                    (cols, rows) == host.kind.spec_grid(),
                    host.kind.spec_riding(),
                    forall|i: int| 0 <= i < list.len() ==> #[trigger] rooms.room_at(list@[i].0 as int) == Some(list@[i].1),
                    forall|i: int, j: int| 0 <= i < j < list.len() ==> list@[i].0 < list@[j].0,
            forall|id: int|
                #![trigger rooms.room_at(id)]
                rooms.present(id) ==> exists|i: int| 0 <= i < list.len() && list@[i].0 == id,
                    forall|c: (RoomId, u8, u8)|
                        aboard_berth(*rooms, c) && (exists|j: int| 0 <= j < k && #[trigger] list@[j].0 == c.0) ==> !#[trigger] lays_at(
                            *rooms,
                            pieces@,
                            id,
                            kind,
                            c,
                        ),
                    forall|c: (RoomId, u8, u8)|
                        aboard_berth(*rooms, c) && c.0 == room && c.2 < y ==> !#[trigger] lays_at(*rooms, pieces@, id, kind, c),
                decreases rows - y,
            {
                let mut x: u8 = 0;
                while x < cols
                    invariant
                        k < list@.len(),
                    kind.spec_covering(),
                        y < rows,
                        list@[k as int] == (room, host),
                        rooms.room_at(room as int) == Some(host),
                        (cols, rows) == host.kind.spec_grid(),
                        host.kind.spec_riding(),
                    host.kind.spec_riding(),
                        forall|i: int| 0 <= i < list.len() ==> #[trigger] rooms.room_at(list@[i].0 as int) == Some(list@[i].1),
                        forall|i: int, j: int| 0 <= i < j < list.len() ==> list@[i].0 < list@[j].0,
            forall|id: int|
                #![trigger rooms.room_at(id)]
                rooms.present(id) ==> exists|i: int| 0 <= i < list.len() && list@[i].0 == id,
                        forall|c: (RoomId, u8, u8)|
                            aboard_berth(*rooms, c) && (exists|j: int| 0 <= j < k && #[trigger] list@[j].0 == c.0) ==> !#[trigger] lays_at(
                                *rooms,
                                pieces@,
                                id,
                                kind,
                                c,
                            ),
                        forall|c: (RoomId, u8, u8)|
                            aboard_berth(*rooms, c) && c.0 == room && (c.2 < y || (c.2 == y && c.1 < x)) ==> !#[trigger] lays_at(
                                *rooms,
                                pieces@,
                                id,
                                kind,
                                c,
                            ),
                    decreases cols - x,
                {
                    if dressing_check(rooms, pieces, id, kind, room, x, y).is_ok() {
                        proof {
                            assert forall|c: (RoomId, u8, u8)|
                                aboard_berth(*rooms, c) && scanned_before(c, (room, x, y)) implies !#[trigger] lays_at(
                                *rooms,
                                pieces@,
                                id,
                                kind,
                                c,
                            ) by {
                                if c.0 < room {
                                    assert(rooms.present(c.0 as int));
                                    assert(rooms.room_at(c.0 as int) is Some);
                                    let j = choose|j: int| 0 <= j < list.len() && list@[j].0 == c.0;
                                    if j >= k {
                                        if j > k {
                                            assert(list@[k as int].0 < list@[j].0);
                                        }
                                        assert(false);
                                    }
                                }
                            }
                        }
                        return Some((room, x, y));
                    }
                    x = x + 1;
                }
                y = y + 1;
            }
        }
        proof {
            assert forall|c: (RoomId, u8, u8)|
                aboard_berth(*rooms, c) && (exists|j: int| 0 <= j < k + 1 && #[trigger] list@[j].0 == c.0) implies !#[trigger] lays_at(
                *rooms,
                pieces@,
                id,
                kind,
                c,
            ) by {
                let j = choose|j: int| 0 <= j < k + 1 && #[trigger] list@[j].0 == c.0;
                if j == k {
                    assert(c.0 == room);
                }
            }
        }
        k = k + 1;
    }
    proof {
        assert forall|c: (RoomId, u8, u8)| aboard_berth(*rooms, c) implies !#[trigger] lays_at(*rooms, pieces@, id, kind, c) by {
            assert(rooms.room_at(c.0 as int) is Some);
            let j = choose|j: int| 0 <= j < list.len() && list@[j].0 == c.0 as int;
            assert(list@[j].0 == c.0);
        }
    }
    None
}


/// Whether `other` stands as cargo in room `room` on footprint `fp`.
pub open spec fn stands_on(host: RoomKind, room: RoomId, fp: (u8, u8, u8, u8), other: Piece) -> bool {
    match other.loc {
        Loc::Hold { room: oroom, x: ox, y: oy } => oroom == room && spec_covers_same(host, other.kind, ox, oy, fp),
        _ => false,
    }
}

/// Whether occupancy cargo other than `piece` stands on `piece`'s laid
/// footprint.
pub open spec fn spec_laid_pinned(rooms: Rooms, pieces: Seq<Piece>, piece: Piece) -> bool {
    match piece.loc {
        Loc::Laid { room, x, y } => match rooms.kind_at(room as int) {
            Some(host) => match spec_plan(host, piece.kind, x as int, y as int) {
                Some(p) => exists|i: int|
                    0 <= i < pieces.len() && #[trigger] pieces[i].id != piece.id && stands_on(
                        host,
                        room,
                        (x, y, p.0, p.1),
                        pieces[i],
                    ),
                None => false,
            },
            None => false,
        },
        _ => false,
    }
}

/// Whether occupancy cargo stands on `piece`'s laid footprint. A pinned
/// dressing refuses to lift — move the couch, then roll the rug —
/// mirroring [`dressing_check`]'s refusal to lay beneath one.
pub fn laid_pinned(rooms: &Rooms, pieces: &[Piece], piece: &Piece) -> (r: bool)
    ensures
        r == spec_laid_pinned(*rooms, pieces@, *piece),
{
    let (room, x, y) = match piece.loc {
        Loc::Laid { room, x, y } => (room, x, y),
        _ => return false,
    };
    let host = match rooms.kind(room) {
        Some(h) => h,
        None => return false,
    };
    let (w, h) = match plan(host, piece.kind, x, y) {
        Some(p) => p,
        None => return false,
    };
    proof {
        lemma_net_in_grid(host, x as int, y as int);
    }
    let mut i: usize = 0;
    while i < pieces.len()
        invariant
            i <= pieces@.len(),
            x + w < 256,
            y + h < 256,
            piece.loc == (Loc::Laid { room, x, y }),
            rooms.kind_at(room as int) == Some(host),
            spec_plan(host, piece.kind, x as int, y as int) == Some((w, h)),
            forall|j: int|
                0 <= j < i ==> !(#[trigger] pieces@[j].id != piece.id && stands_on(host, room, (x, y, w, h), pieces@[j])),
        decreases pieces@.len() - i,
    {
        let other = pieces[i];
        if let Loc::Hold { room: oroom, x: ox, y: oy } = other.loc {
            if other.id != piece.id && oroom == room && covers_same(host, other.kind, ox, oy, (x, y, w, h)) {
                assert(pieces@[i as int] == other);
                return true;
            }
        }
        i = i + 1;
    }
    false
}

/// Whether a piece's berth is one it would still hold after a launch:
/// the player's own, in a room that rides, and not on the fire.
pub open spec fn spec_staying(rooms: Rooms, piece: Piece) -> bool {
    &&& spec_player_owned(rooms, piece.loc)
    &&& match piece.loc {
        Loc::Stow { .. } => true,
        Loc::Hold { room, x, y } | Loc::Laid { room, x, y } => rooms.riding_at(room as int) && rooms.tile_at(
            room as int,
            x as int,
            y as int,
        ) != Some(Tile::Consume),
    }
}

/// Whether a piece's berth is one it would still hold after a launch:
/// the player's own, in a room that rides, and not scheduled for the
/// fire. This is the possession half of the vital rule.
pub fn staying(rooms: &Rooms, pieces: &[Piece], piece: &Piece) -> (r: bool)
    ensures
        r == spec_staying(*rooms, *piece),
{
    if !player_owned(rooms, pieces, piece.loc) {
        return false;
    }
    match piece.loc {
        Loc::Stow { .. } => true,
        Loc::Hold { room, x, y } | Loc::Laid { room, x, y } => {
            rooms.riding(room) && rooms.tile(room, x, y) != Some(Tile::Consume)
        },
    }
}

/// Whether `piece` is the last vital instrument of its kind still
/// staying aboard.
pub open spec fn spec_last_vital(rooms: Rooms, pieces: Seq<Piece>, piece: Piece) -> bool {
    &&& piece.kind.spec_vital()
    &&& !exists|i: int|
        0 <= i < pieces.len() && #[trigger] pieces[i].id != piece.id && pieces[i].kind == piece.kind
            && spec_staying(rooms, pieces[i])
}

/// Whether `piece` is the LAST vital instrument of its kind in the
/// player's possession — the piece every exit ceremony must refuse.
///
/// Only berths that are staying count as possession: a spare already
/// staged on a calling room's offer area or on the incinerator's tiles
/// is itself on its way out, and counting it would let both of a pair be
/// staged and both be lost.
pub fn last_vital_aboard(rooms: &Rooms, pieces: &[Piece], piece: &Piece) -> (r: bool)
    ensures
        r == spec_last_vital(*rooms, pieces@, *piece),
{
    if !piece.kind.vital() {
        return false;
    }
    let mut i: usize = 0;
    while i < pieces.len()
        invariant
            i <= pieces@.len(),
            forall|j: int|
                0 <= j < i ==> !(#[trigger] pieces@[j].id != piece.id && pieces@[j].kind == piece.kind
                    && spec_staying(*rooms, pieces@[j])),
        decreases pieces@.len() - i,
    {
        let other = pieces[i];
        if other.id != piece.id && other.kind == piece.kind && staying(rooms, pieces, &other) {
            assert(pieces@[i as int] == other);
            return false;
        }
        i = i + 1;
    }
    true
}

/// Whether `kind` is a lamp.
pub open spec fn spec_lamp(kind: Kind) -> bool {
    kind == Kind::CeilingLamp || kind == Kind::WallLamp || kind == Kind::FloorLamp
}

/// Whether `kind` is a lamp — one of the three affixed fixtures that cast
/// light while berthed.
pub fn lamp(kind: Kind) -> (r: bool)
    ensures
        r == spec_lamp(kind),
{
    kind == Kind::CeilingLamp || kind == Kind::WallLamp || kind == Kind::FloorLamp
}

/// Whether `piece` is a lamp, burning: a lamp in a room cell.
pub open spec fn spec_lamp_lit(piece: Piece) -> bool {
    spec_lamp(piece.kind) && piece.loc is Hold
}

/// Whether `piece` is a lamp, burning.
///
/// Lamps are lit while they occupy a room cell and nowhere else: boxed in
/// a cabinet cubby they are dark. Everything lighting touches reads lamp
/// state through this one predicate.
pub fn lamp_lit(piece: &Piece) -> (r: bool)
    ensures
        r == spec_lamp_lit(*piece),
{
    lamp(piece.kind) && match piece.loc {
        Loc::Hold { .. } => true,
        _ => false,
    }
}

/// Which room a lit lamp lights, if it lights one.
pub fn lamp_room(piece: &Piece) -> (r: Option<RoomId>)
    ensures
        r == (if spec_lamp_lit(*piece) {
            Some(piece.loc->Hold_room)
        } else {
            None
        }),
{
    match piece.loc {
        Loc::Hold { room, .. } => if lamp(piece.kind) {
            Some(room)
        } else {
            None
        },
        _ => None,
    }
}

/// Whether `piece` is a light source: a lit lamp, or a laid luminous
/// coat.
pub open spec fn light_source(piece: Piece) -> bool {
    match piece.loc {
        Loc::Hold { .. } => spec_lamp_lit(piece),
        Loc::Laid { .. } => piece.kind == Kind::LuminousPaint,
        Loc::Stow { .. } => false,
    }
}

/// Whether light source `piece` lights cell `(x, y)` of room `room`, a
/// `host`: same room, and the cell shares an edge with its footprint.
pub open spec fn lights_cell(host: RoomKind, room: RoomId, x: u8, y: u8, piece: Piece) -> bool {
    match piece.loc {
        Loc::Hold { room: lroom, x: lx, y: ly } | Loc::Laid { room: lroom, x: lx, y: ly } => {
            &&& light_source(piece)
            &&& lroom == room
            &&& spec_plan(host, piece.kind, lx as int, ly as int) matches Some(p)
            &&& spec_adjacent((x, y, 1u8, 1u8), (lx, ly, p.0, p.1))
        },
        Loc::Stow { .. } => false,
    }
}

/// Whether cell `(room, x, y)` sits in light.
///
/// Lit means orthogonally adjacent to — never inside — some lit lamp's
/// footprint or some laid luminous coat's, by the same edge rule the
/// volatile check uses, so corners do not count. Light does not cross a
/// seam: a lamp lights its own room. `host` is the room's own kind,
/// because a lamp's footprint is a question about the chart it stands on.
pub fn lit_adjacent(host: RoomKind, pieces: &[Piece], room: RoomId, x: u8, y: u8) -> (r: bool)
    requires
        x < 255,
        y < 255,
    ensures
        r == exists|i: int| 0 <= i < pieces@.len() && lights_cell(host, room, x, y, #[trigger] pieces@[i]),
{
    let mut i: usize = 0;
    while i < pieces.len()
        invariant
            i <= pieces@.len(),
            x < 255,
            y < 255,
            forall|j: int| 0 <= j < i ==> !lights_cell(host, room, x, y, #[trigger] pieces@[j]),
        decreases pieces@.len() - i,
    {
        let piece = pieces[i];
        assert(piece == pieces@[i as int]);
        let (source, lroom, lx, ly) = match piece.loc {
            Loc::Hold { room: r, x: px, y: py } => (lamp_lit(&piece), r, px, py),
            Loc::Laid { room: r, x: px, y: py } => (piece.kind == Kind::LuminousPaint, r, px, py),
            Loc::Stow { .. } => {
                i = i + 1;
                continue;
            },
        };
        if source && lroom == room {
            if let Some((w, h)) = plan(host, piece.kind, lx, ly) {
                proof {
                    lemma_net_in_grid(host, lx as int, ly as int);
                }
                if adjacent((x, y, 1, 1), (lx, ly, w, h)) {
                    return true;
                }
            }
        }
        i = i + 1;
    }
    false
}


/// With no conflict from `i` on, no piece from `i` on (other than `id`)
/// refuses.
proof fn lemma_no_conflict_from(
    rooms: Rooms,
    pieces: Seq<Piece>,
    id: u32,
    host: RoomKind,
    room: RoomId,
    kind: Kind,
    fp: (u8, u8, u8, u8),
    standing: bool,
    i: int,
)
    requires
        0 <= i,
        first_conflict(rooms, pieces, id, host, room, kind, fp, standing, i) is None,
    ensures
        forall|j: int|
            i <= j < pieces.len() && pieces[j].id != id ==> #[trigger] hold_verdict(
                rooms,
                host,
                room,
                kind,
                fp,
                standing,
                pieces[j],
            ) is None,
    decreases pieces.len() - i,
{
    if i < pieces.len() {
        lemma_no_conflict_from(rooms, pieces, id, host, room, kind, fp, standing, i + 1);
    }
}

/// **Placed cargo never shares a cell.** Wherever the arbiter accepts
/// `kind` at `(room, x, y)`, its footprint overlaps the footprint of no
/// other piece standing in that room.
pub proof fn lemma_placement_no_overlap(
    rooms: Rooms,
    pieces: Seq<Piece>,
    id: u32,
    kind: Kind,
    room: RoomId,
    x: u8,
    y: u8,
    other: Piece,
)
    requires
        spec_placement(rooms, pieces, id, kind, room, x, y) is Ok,
        pieces.contains(other),
        other.id != id,
        other.loc matches Loc::Hold { room: oroom, .. } && oroom == room,
    ensures
        ({
            let host = rooms.kind_at(room as int)->0;
            let mine = spec_plan(host, kind, x as int, y as int)->0;
            !spec_covers_same(host, other.kind, other.loc->Hold_x, other.loc->Hold_y, (x, y, mine.0, mine.1))
        }),
{
    let host = rooms.kind_at(room as int)->0;
    let mine = spec_plan(host, kind, x as int, y as int)->0;
    let surf = spec_footprint_surface(host, x as int, y as int, mine.0 as int, mine.1 as int)->0;
    let fp = (x, y, mine.0, mine.1);
    lemma_no_conflict_from(rooms, pieces, id, host, room, kind, fp, surf == Surf::Floor, 0);
    let j = choose|j: int| 0 <= j < pieces.len() && pieces[j] == other;
    assert(hold_verdict(rooms, host, room, kind, fp, surf == Surf::Floor, pieces[j]) is None);
}

/// **A held piece never collides with its own old footprint.** The
/// verdict for the piece with identity `id` is the same whether or not
/// that piece is still listed.
pub proof fn lemma_held_piece_ignored(
    rooms: Rooms,
    pieces: Seq<Piece>,
    held: Piece,
    kind: Kind,
    room: RoomId,
    x: u8,
    y: u8,
)
    ensures
        spec_placement(rooms, pieces.push(held), held.id, kind, room, x, y) == spec_placement(
            rooms,
            pieces,
            held.id,
            kind,
            room,
            x,
            y,
        ),
{
    match rooms.kind_at(room as int) {
        None => {},
        Some(host) => match spec_plan(host, kind, x as int, y as int) {
            None => {},
            Some(p) => {
                let fp = (x, y, p.0, p.1);
                match spec_footprint_surface(host, x as int, y as int, p.0 as int, p.1 as int) {
                    None => {},
                    Some(surf) => {
                        lemma_conflict_push(rooms, pieces, held, host, room, kind, fp, surf == Surf::Floor, 0);
                    },
                }
            },
        },
    }
}

/// Listing the held piece last changes no conflict search that skips it.
proof fn lemma_conflict_push(
    rooms: Rooms,
    pieces: Seq<Piece>,
    held: Piece,
    host: RoomKind,
    room: RoomId,
    kind: Kind,
    fp: (u8, u8, u8, u8),
    standing: bool,
    i: int,
)
    requires
        0 <= i <= pieces.len(),
    ensures
        first_conflict(rooms, pieces.push(held), held.id, host, room, kind, fp, standing, i) == first_conflict(
            rooms,
            pieces,
            held.id,
            host,
            room,
            kind,
            fp,
            standing,
            i,
        ),
    decreases pieces.len() - i,
{
    if i < pieces.len() {
        assert(pieces.push(held)[i] == pieces[i]);
        lemma_conflict_push(rooms, pieces, held, host, room, kind, fp, standing, i + 1);
    } else {
        assert(pieces.push(held)[i] == held);
        assert(first_conflict(rooms, pieces.push(held), held.id, host, room, kind, fp, standing, i + 1) is None);
    }
}

/// **Light falls beside a source, never inside it.** A cell lit by a
/// lamp or a luminous coat lies outside that source's own footprint.
pub proof fn lemma_lit_never_inside(host: RoomKind, room: RoomId, x: u8, y: u8, piece: Piece)
    requires
        lights_cell(host, room, x, y, piece),
    ensures
        ({
            let (lx, ly) = match piece.loc {
                Loc::Hold { x, y, .. } | Loc::Laid { x, y, .. } => (x, y),
                Loc::Stow { .. } => (0u8, 0u8),
            };
            let p = spec_plan(host, piece.kind, lx as int, ly as int)->0;
            !spec_covers(lx as int, ly as int, p.0 as int, p.1 as int, x as int, y as int)
        }),
{
}


/// Every kind is at most two cells across, one deep, and two tall.
pub proof fn lemma_extent_small(kind: Kind)
    ensures
        1 <= kind.spec_extent().0 <= 2,
        kind.spec_extent().1 == 1,
        1 <= kind.spec_extent().2 <= 2,
{
}
} // verus!

verus! {

/// Whether `p` can ever refuse a placement of piece `id`: a piece other
/// than the one being placed, standing in a room.
pub open spec fn can_refuse(id: u32) -> spec_fn(Piece) -> bool {
    |p: Piece| p.id != id && p.loc is Hold
}

/// The first conflict of a board is that of the board without its last
/// piece, or else the last piece's own verdict.
proof fn lemma_conflict_last(
    rooms: Rooms,
    ps: Seq<Piece>,
    id: u32,
    host: RoomKind,
    room: RoomId,
    kind: Kind,
    fp: (u8, u8, u8, u8),
    standing: bool,
    i: int,
)
    requires
        0 <= i <= ps.len(),
        ps.len() > 0,
    ensures
        first_conflict(rooms, ps, id, host, room, kind, fp, standing, i) == match first_conflict(
            rooms,
            ps.drop_last(),
            id,
            host,
            room,
            kind,
            fp,
            standing,
            i,
        ) {
            Some(v) => Some(v),
            None => if i < ps.len() && ps.last().id != id {
                hold_verdict(rooms, host, room, kind, fp, standing, ps.last())
            } else {
                None
            },
        },
    decreases ps.len() - i,
{
    if i < ps.len() - 1 {
        lemma_conflict_last(rooms, ps, id, host, room, kind, fp, standing, i + 1);
        assert(ps.drop_last()[i] == ps[i]);
    } else if i == ps.len() - 1 {
        assert(ps[i] == ps.last());
        assert(first_conflict(rooms, ps, id, host, room, kind, fp, standing, i + 1) is None);
        assert(first_conflict(rooms, ps.drop_last(), id, host, room, kind, fp, standing, i) is None);
    }
}

/// The verdict a board gives is the verdict of the pieces in it that can
/// refuse: the piece being placed and anything not standing in a room
/// never matter.
proof fn lemma_conflict_filter(
    rooms: Rooms,
    ps: Seq<Piece>,
    id: u32,
    host: RoomKind,
    room: RoomId,
    kind: Kind,
    fp: (u8, u8, u8, u8),
    standing: bool,
)
    ensures
        first_conflict(rooms, ps, id, host, room, kind, fp, standing, 0) == first_conflict(
            rooms,
            ps.filter(can_refuse(id)),
            id,
            host,
            room,
            kind,
            fp,
            standing,
            0,
        ),
    decreases ps.len(),
{
    reveal(Seq::filter);
    if ps.len() > 0 {
        lemma_conflict_filter(rooms, ps.drop_last(), id, host, room, kind, fp, standing);
        lemma_conflict_last(rooms, ps, id, host, room, kind, fp, standing, 0);
        let kept = ps.drop_last().filter(can_refuse(id));
        if can_refuse(id)(ps.last()) {
            assert(ps.filter(can_refuse(id)) == kept.push(ps.last()));
            assert(kept.push(ps.last()).drop_last() =~= kept);
            lemma_conflict_last(rooms, kept.push(ps.last()), id, host, room, kind, fp, standing, 0);
        } else {
            assert(ps.filter(can_refuse(id)) == kept);
        }
    }
}

/// **Only pieces that stand in a room, other than the one being placed,
/// bear on a placement**: the verdict on any board is the verdict on the
/// board filtered to them, so a held piece's old footprint and every
/// stowed or laid piece never change it.
pub proof fn lemma_placement_sees_only_standing(
    rooms: Rooms,
    pieces: Seq<Piece>,
    id: u32,
    kind: Kind,
    room: RoomId,
    x: u8,
    y: u8,
)
    ensures
        spec_placement(rooms, pieces, id, kind, room, x, y) == spec_placement(
            rooms,
            pieces.filter(can_refuse(id)),
            id,
            kind,
            room,
            x,
            y,
        ),
{
    if let Some(host) = rooms.kind_at(room as int) {
        if let Some(p) = spec_plan(host, kind, x as int, y as int) {
            if let Some(surf) = spec_footprint_surface(host, x as int, y as int, p.0 as int, p.1 as int) {
                lemma_conflict_filter(rooms, pieces, id, host, room, kind, (x, y, p.0, p.1), surf == Surf::Floor);
            }
        }
    }
}

} // verus!
