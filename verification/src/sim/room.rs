//! Rooms: the ship attaches what it meets.
//!
//! The ship is a **graph of rooms** — nodes are rooms, edges are mated
//! ports — laid on one shared integer lattice in units of the room grid's
//! cell. Every room is an axis-aligned box at an integer origin with an
//! integer yaw of 0/90/180/270, one storey tall, and every room declares
//! the ports it needs out of six slots: a door on each of the four walls,
//! a ladder in the ceiling, a hatch in the floor.
//!
//! Every room is also a **room net**: a cross of six charts laid flat. A
//! room kind declares its floor extent and its ports; the charts, the
//! aperture punch-outs, and the tile classes all derive.

use vstd::prelude::*;

verus! {

/// Index of one attached room. Dense and reused.
pub type RoomId = u8;

/// Index of one of a room's six port slots. The slot **is** the
/// position: wall `w`'s door is port `w`, the ladder is [`LADDER`], the
/// hatch is [`HATCH`].
pub type PortId = u8;

/// The cabin: the room you start in, and the root of the graph.
pub const CABIN: RoomId = 0;

/// Most rooms the ship will carry at once.
pub const MAX_ROOMS: usize = 10;

/// Port slots per room — the bound, not a quota.
pub const PORTS: usize = 6;

/// The ladder's port slot.
pub const LADDER: PortId = 4;

/// The hatch's port slot.
pub const HATCH: PortId = 5;

/// How wide an aperture is, in cells.
pub const APERTURE: u8 = 2;

/// Wall courses: every room's walls are the cabin's height.
pub const COURSES: u8 = 3;

/// Which plane of a room a net cell lies in.
#[derive(Clone, Copy, Debug, PartialEq, Eq, Structural)]
pub enum Surf {
    Aft,
    Port,
    Floor,
    Starboard,
    Front,
    Ceiling,
}

/// What a cell's colour reads as, and therefore how it behaves.
#[derive(Clone, Copy, Debug, PartialEq, Eq, Structural)]
pub enum Tile {
    /// Ordinary deck, wall, or ceiling: an ordinary berth.
    Plain,
    /// A chalked square: cargo berthed here is proposed, not surrendered.
    Offer,
    /// The room's own goods.
    Stock,
    /// Hazard chevrons: anything berthed here is scheduled for the fire.
    Consume,
    /// An aperture's footprint, belonging to two rooms at once.
    Threshold,
    /// Fabric the room's own hardware already fills.
    Fixture,
}

/// Everything a room can be. An appended table: new kinds go on the end.
#[derive(Clone, Copy, Debug, PartialEq, Eq, Structural)]
pub enum RoomKind {
    /// The cabin, room 0: an 8×7 floor.
    Cabin,
    /// The incinerator: its whole net is `Consume`.
    Burner,
    /// A point of interest's own trade room.
    Trade,
    /// A derelict's hold.
    Wreck,
    /// The casino's parlor.
    Parlor,
    /// The gas station's pump bay.
    Pump,
}

/// Every room kind, in save-token order.
pub const ROOM_KINDS: [RoomKind; 6] = [
    RoomKind::Cabin,
    RoomKind::Burner,
    RoomKind::Trade,
    RoomKind::Wreck,
    RoomKind::Parlor,
    RoomKind::Pump,
];

/// One declared attachment point.
#[derive(Clone, Copy, Debug, PartialEq, Eq, Structural)]
pub enum Port {
    /// A door on wall `wall` (0 aft, 1 starboard, 2 front, 3 port),
    /// `offset` cells along that wall from its low end.
    Door { wall: u8, offset: u8 },
    /// The ceiling's ladder, over the floor patch anchored at `(x, y)`.
    Ladder { x: u8, y: u8 },
    /// The floor's hatch, at the floor patch anchored at `(x, y)`.
    Hatch { x: u8, y: u8 },
}

/// The room kind a save token names.
pub open spec fn spec_kind_of_token(token: u8) -> Option<RoomKind> {
    if token == 0 {
        Some(RoomKind::Cabin)
    } else if token == 1 {
        Some(RoomKind::Burner)
    } else if token == 2 {
        Some(RoomKind::Trade)
    } else if token == 3 {
        Some(RoomKind::Wreck)
    } else if token == 4 {
        Some(RoomKind::Parlor)
    } else if token == 5 {
        Some(RoomKind::Pump)
    } else {
        None
    }
}

/// Whether a declared slot holds a door.
pub open spec fn is_door(port: Option<Port>) -> bool {
    port matches Some(Port::Door { .. })
}

/// Whether `i` of a run of `n` cells is where the run's middle falls:
/// one cell where `n` is odd, two where it is even.
pub open spec fn middle(n: int, i: int) -> bool {
    i + 1 >= (n + 1) / 2 && i <= n / 2
}

impl RoomKind {
    /// The save token.
    pub open spec fn spec_token(self) -> u8 {
        match self {
            RoomKind::Cabin => 0,
            RoomKind::Burner => 1,
            RoomKind::Trade => 2,
            RoomKind::Wreck => 3,
            RoomKind::Parlor => 4,
            RoomKind::Pump => 5,
        }
    }

    /// The floor extent in cells, `(width, depth)`.
    pub open spec fn spec_floor(self) -> (u8, u8) {
        match self {
            RoomKind::Cabin => (8, 7),
            RoomKind::Burner => (4, 3),
            RoomKind::Trade => (6, 5),
            RoomKind::Wreck => (5, 3),
            RoomKind::Parlor => (4, 4),
            RoomKind::Pump => (3, 3),
        }
    }

    pub open spec fn width(self) -> int {
        self.spec_floor().0 as int
    }

    pub open spec fn depth(self) -> int {
        self.spec_floor().1 as int
    }

    /// The net's bounding grid: three courses of wall on every side of
    /// the floor, with the ceiling folded over the starboard cornice.
    pub open spec fn spec_grid(self) -> (u8, u8) {
        ((6 + 2 * self.width()) as u8, (6 + self.depth()) as u8)
    }

    /// Whether this room travels with the ship.
    pub open spec fn spec_riding(self) -> bool {
        self == RoomKind::Cabin || self == RoomKind::Burner
    }

    /// The port this kind declares in slot `port`, if any.
    pub open spec fn spec_port(self, port: int) -> Option<Port> {
        match self {
            RoomKind::Cabin => {
                if port == 0 {
                    Some(Port::Door { wall: 0, offset: 0 })
                } else if port == 1 {
                    Some(Port::Door { wall: 1, offset: 0 })
                } else if port == 2 {
                    Some(Port::Door { wall: 2, offset: 3 })
                } else if port == 3 {
                    Some(Port::Door { wall: 3, offset: 0 })
                } else if port == 4 {
                    Some(Port::Ladder { x: 6, y: 4 })
                } else if port == 5 {
                    Some(Port::Hatch { x: 6, y: 4 })
                } else {
                    None
                }
            },
            RoomKind::Burner => {
                if port == 3 {
                    Some(Port::Door { wall: 3, offset: 0 })
                } else {
                    None
                }
            },
            _ => {
                if port == 0 {
                    Some(Port::Door { wall: 0, offset: 0 })
                } else {
                    None
                }
            },
        }
    }

    /// The handshake's net cell, if the kind has one.
    pub open spec fn spec_handshake(self) -> Option<(u8, u8)> {
        match self {
            RoomKind::Cabin | RoomKind::Burner => None,
            RoomKind::Trade | RoomKind::Wreck => Some((6u8, 1u8)),
            RoomKind::Parlor | RoomKind::Pump => Some((5u8, 1u8)),
        }
    }

    /// Which plane net cell `(x, y)` lies in: the cross of six charts,
    /// less the handshake's own socket.
    pub open spec fn spec_surface_of(self, x: int, y: int) -> Option<Surf> {
        let w = self.width();
        let h = self.depth();
        if self.spec_handshake() matches Some(hs) && x == hs.0 && y == hs.1 {
            None
        } else if y < 3 {
            if 3 <= x < 3 + w {
                Some(Surf::Aft)
            } else {
                None
            }
        } else if y >= 3 + h {
            if y < 6 + h && 3 <= x < 3 + w {
                Some(Surf::Front)
            } else {
                None
            }
        } else if x < 3 {
            Some(Surf::Port)
        } else if x < 3 + w {
            Some(Surf::Floor)
        } else if x < 6 + w {
            Some(Surf::Starboard)
        } else if x < 6 + 2 * w {
            Some(Surf::Ceiling)
        } else {
            None
        }
    }

    /// The `k`-th net cell (`0..4`) a port's aperture punches: two by
    /// two, course-major for a door, row-major for the vertical pair.
    pub open spec fn aperture_cell(self, port: Port, k: int) -> (int, int) {
        let w = self.width();
        let h = self.depth();
        let a = k / 2;
        let b = k % 2;
        match port {
            Port::Door { wall, offset } => {
                if wall == 0 {
                    (3 + offset + b, 2 - a)
                } else if wall == 1 {
                    (3 + w + a, 3 + offset + b)
                } else if wall == 2 {
                    (3 + offset + b, 3 + h + a)
                } else {
                    (2 - a, 3 + offset + b)
                }
            },
            Port::Ladder { x, y } => (6 + 2 * w - 1 - (x + b), 3 + y + a),
            Port::Hatch { x, y } => (3 + x + b, 3 + y + a),
        }
    }

    /// Whether `(x, y)` lies in the aperture of some declared port.
    pub open spec fn in_some_aperture(self, x: int, y: int) -> bool {
        exists|p: int, k: int|
            0 <= p < 6 && 0 <= k < 4 && #[trigger] self.spec_port(p) is Some
                && #[trigger] self.aperture_cell(self.spec_port(p)->0, k) == (x, y)
    }

    /// The deck a declared door's body first steps onto: floor cell
    /// `along` of door `port`'s two, as a net cell.
    pub open spec fn doorstep_cell(self, port: Port, along: int) -> (int, int) {
        let w = self.width();
        let h = self.depth();
        match port {
            Port::Door { wall, offset } => {
                let m = wall % 4;
                if m == 0 {
                    (3 + offset + along, 3)
                } else if m == 1 {
                    (3 + w - 1, 3 + offset + along)
                } else if m == 2 {
                    (3 + offset + along, 3 + h - 1)
                } else {
                    (3, 3 + offset + along)
                }
            },
            _ => (-1, -1),
        }
    }

    /// Whether net cell `(x, y)` is deck a declared door stands on.
    pub open spec fn spec_doorstep(self, x: int, y: int) -> bool {
        exists|p: int, along: int|
            0 <= p < 6 && 0 <= along < 2 && is_door(#[trigger] self.spec_port(p))
                && #[trigger] self.doorstep_cell(self.spec_port(p)->0, along) == (x, y)
    }

    /// Whether net cell `(x, y)`, on chart `surf`, lies in the lane that
    /// door `(wall, offset)` opens straight across the room.
    pub open spec fn in_lane(self, wall: u8, offset: u8, surf: Surf, x: int, y: int) -> bool {
        let across = wall % 2 == 0;
        let lane = |n: int| offset <= n < offset + 2;
        match surf {
            Surf::Floor => if across {
                lane(x - 3)
            } else {
                lane(y - 3)
            },
            Surf::Ceiling => if across {
                lane(6 + 2 * self.width() - 1 - x)
            } else {
                lane(y - 3)
            },
            Surf::Aft | Surf::Front => across && lane(x - 3),
            Surf::Port | Surf::Starboard => !across && lane(y - 3),
        }
    }

    /// Whether slot `p` holds a door whose lane covers net cell `(x, y)`.
    pub open spec fn door_lane(self, p: int, x: int, y: int) -> bool {
        match self.spec_port(p) {
            Some(Port::Door { wall, offset }) => self.spec_surface_of(x, y) is Some && self.in_lane(
                wall,
                offset,
                self.spec_surface_of(x, y)->0,
                x,
                y,
            ),
            _ => false,
        }
    }

    /// Whether net cell `(x, y)` lies in a declared door's entry path: the
    /// deck lane its aperture opens onto, carried across the room, and the
    /// wall and ceiling cells standing over that lane.
    pub open spec fn spec_entry_path(self, x: int, y: int) -> bool {
        &&& self.spec_surface_of(x, y) is Some
        &&& exists|p: int|
            0 <= p < 6 && #[trigger] self.door_lane(p, x, y)
    }

    /// Whether net cell `(x, y)` is fabric the room's own hardware
    /// already fills: the counter's deck, the wall its brass turns onto
    /// in a corner, and the pendant's patch of ceiling.
    pub open spec fn spec_fixture(self, x: int, y: int) -> bool {
        let w = self.width();
        let h = self.depth();
        match self.spec_surface_of(x, y) {
            Some(Surf::Floor) => self.spec_handshake() matches Some(hs) && x == hs.0 && y == 3,
            Some(Surf::Port) | Some(Surf::Starboard) => self.spec_handshake() matches Some(hs) && {
                let course = 2 - hs.1;
                y == 3 && ((hs.0 == 3 && x + 1 + course == 3) || (hs.0 + 1 == 3 + w && x == 3 + w
                    + course))
            },
            Some(Surf::Ceiling) => !self.spec_riding() && middle(w, 6 + 2 * w - 1 - x) && middle(
                h,
                y - 3,
            ),
            _ => false,
        }
    }

    /// The tile class a kind's bands give cell `(x, y)` on chart `surf`,
    /// before the entry-path law: the burner is hazard throughout, the aft
    /// band of a market or hold is stock, the front band of a market or
    /// parlor is an offer area.
    pub open spec fn band_tile(self, surf: Surf, y: int) -> Tile {
        let aft = surf == Surf::Aft || ((surf == Surf::Floor || surf == Surf::Ceiling) && y == 3);
        let front = surf == Surf::Front || ((surf == Surf::Floor || surf == Surf::Ceiling) && y + 2
            >= 3 + self.depth());
        if self == RoomKind::Burner {
            Tile::Consume
        } else if (self == RoomKind::Trade || self == RoomKind::Wreck) && aft {
            Tile::Stock
        } else if (self == RoomKind::Trade || self == RoomKind::Parlor) && front {
            Tile::Offer
        } else {
            Tile::Plain
        }
    }

    /// What net cell `(x, y)` is: the single declaration the rules and
    /// the paint both read.
    pub open spec fn spec_tile_of(self, x: int, y: int) -> Option<Tile> {
        match self.spec_surface_of(x, y) {
            None => None,
            Some(surf) => if self.in_some_aperture(x, y) {
                Some(Tile::Threshold)
            } else if self.spec_fixture(x, y) {
                Some(Tile::Fixture)
            } else if self.band_tile(surf, y) == Tile::Offer && self.spec_entry_path(x, y) {
                Some(Tile::Plain)
            } else {
                Some(self.band_tile(surf, y))
            },
        }
    }

    /// Stable save token. Appended, so old documents keep parsing.
    pub fn token(self) -> (r: u8)
        ensures
            r == self.spec_token(),
            spec_kind_of_token(r) == Some(self),
    {
        match self {
            RoomKind::Cabin => 0,
            RoomKind::Burner => 1,
            RoomKind::Trade => 2,
            RoomKind::Wreck => 3,
            RoomKind::Parlor => 4,
            RoomKind::Pump => 5,
        }
    }

    /// Inverse of [`RoomKind::token`].
    pub fn from_token(token: u8) -> (r: Option<Self>)
        ensures
            r == spec_kind_of_token(token),
            r matches Some(k) ==> k.spec_token() == token,
    {
        match token {
            0 => Some(RoomKind::Cabin),
            1 => Some(RoomKind::Burner),
            2 => Some(RoomKind::Trade),
            3 => Some(RoomKind::Wreck),
            4 => Some(RoomKind::Parlor),
            5 => Some(RoomKind::Pump),
            _ => None,
        }
    }

    /// The room's floor extent in cells, `(width, depth)`.
    pub fn floor(self) -> (r: (u8, u8))
        ensures
            r == self.spec_floor(),
            3 <= r.0 <= 8,
            3 <= r.1 <= 7,
    {
        match self {
            RoomKind::Cabin => (8, 7),
            RoomKind::Burner => (4, 3),
            RoomKind::Trade => (6, 5),
            RoomKind::Wreck => (5, 3),
            RoomKind::Parlor => (4, 4),
            RoomKind::Pump => (3, 3),
        }
    }

    /// The net's bounding grid, `(cols, rows)`.
    pub fn grid(self) -> (r: (u8, u8))
        ensures
            r == self.spec_grid(),
            r.0 == 6 + 2 * self.width(),
            r.1 == 6 + self.depth(),
            r.0 <= 22,
            r.1 <= 13,
    {
        let (w, h) = self.floor();
        (6 + 2 * w, 6 + h)
    }

    /// Whether this room rides: it travels with the ship. Calling rooms
    /// come alongside and leave.
    pub fn riding(self) -> (r: bool)
        ensures
            r == self.spec_riding(),
    {
        matches!(self, RoomKind::Cabin | RoomKind::Burner)
    }

    /// The ports this kind declares, by slot. Only the cabin keeps all
    /// six; every other kind states its one door and stops.
    pub fn ports(self) -> (r: [Option<Port>; PORTS])
        ensures
            forall|p: int| 0 <= p < 6 ==> #[trigger] r[p] == self.spec_port(p),
    {
        match self {
            RoomKind::Cabin => [
                Some(Port::Door { wall: 0, offset: 0 }),
                Some(Port::Door { wall: 1, offset: 0 }),
                Some(Port::Door { wall: 2, offset: 3 }),
                Some(Port::Door { wall: 3, offset: 0 }),
                Some(Port::Ladder { x: 6, y: 4 }),
                Some(Port::Hatch { x: 6, y: 4 }),
            ],
            RoomKind::Burner => [None, None, None, Some(Port::Door { wall: 3, offset: 0 }), None, None],
            _ => [Some(Port::Door { wall: 0, offset: 0 }), None, None, None, None, None],
        }
    }

    /// The port in slot `port`, if this kind declares one. Every rule
    /// reads the declaration through here.
    pub fn port(self, port: PortId) -> (r: Option<Port>)
        ensures
            r == self.spec_port(port as int),
    {
        if (port as usize) < PORTS {
            let ports = self.ports();
            ports[port as usize]
        } else {
            None
        }
    }

    /// Every port this kind declares, in slot order.
    pub fn declared(self) -> (r: Vec<(PortId, Port)>)
        ensures
            forall|i: int|
                0 <= i < r.len() ==> #[trigger] self.spec_port(r[i].0 as int) == Some(r[i].1) && r[i].0
                    < 6,
            forall|i: int, j: int| 0 <= i < j < r.len() ==> r[i].0 < r[j].0,
            forall|p: int|
                0 <= p < 6 && #[trigger] self.spec_port(p) is Some ==> exists|i: int|
                    0 <= i < r.len() && r[i].0 == p,
    {
        let mut out: Vec<(PortId, Port)> = Vec::new();
        let mut slot: u8 = 0;
        while slot < 6
            invariant
                0 <= slot <= 6,
                forall|i: int|
                    0 <= i < out.len() ==> self.spec_port(#[trigger] out[i].0 as int) == Some(out[i].1)
                        && out[i].0 < slot,
                forall|i: int, j: int| 0 <= i < j < out.len() ==> out[i].0 < out[j].0,
                forall|p: int|
                    0 <= p < slot && #[trigger] self.spec_port(p) is Some ==> exists|i: int|
                        0 <= i < out.len() && out[i].0 == p,
            decreases 6 - slot,
        {
            let ghost before = out@;
            if let Some(port) = self.port(slot) {
                out.push((slot, port));
                assert forall|i: int| 0 <= i < before.len() implies out@[i] == before[i] by {}
                assert forall|p: int|
                    0 <= p <= slot && #[trigger] self.spec_port(p) is Some implies exists|i: int|
                        0 <= i < out.len() && out[i].0 == p by {
                    if p == slot {
                        assert(out[out.len() - 1].0 == p);
                    } else {
                        let i = choose|i: int| 0 <= i < before.len() && before[i].0 == p;
                        assert(out[i].0 == p);
                    }
                }
            }
            slot = slot + 1;
        }
        out
    }

    /// The room's one click-functional fixture, if it has one: the
    /// handshake where a deal is struck.
    pub fn handshake(self) -> (r: Option<(u8, u8)>)
        ensures
            r == self.spec_handshake(),
    {
        match self {
            RoomKind::Cabin | RoomKind::Burner => None,
            RoomKind::Trade | RoomKind::Wreck => Some((6, 1)),
            RoomKind::Parlor | RoomKind::Pump => Some((5, 1)),
        }
    }

    /// Which plane a net cell lies in, or `None` where the cross has no
    /// cell — outside the charts, or the fixture's own socket.
    pub fn surface_of(self, x: u8, y: u8) -> (r: Option<Surf>)
        ensures
            r == self.spec_surface_of(x as int, y as int),
    {
        if let Some((fx, fy)) = self.handshake() {
            if x == fx && y == fy {
                return None;
            }
        }
        let (w, h) = self.floor();
        let c = COURSES;
        if y < c {
            if x >= c && x < c + w {
                return Some(Surf::Aft);
            }
            return None;
        }
        if y >= c + h {
            if y < c + h + c && x >= c && x < c + w {
                return Some(Surf::Front);
            }
            return None;
        }
        if x < c {
            return Some(Surf::Port);
        }
        if x < c + w {
            return Some(Surf::Floor);
        }
        if x < c + w + c {
            return Some(Surf::Starboard);
        }
        if x < 2 * c + w + w {
            return Some(Surf::Ceiling);
        }
        None
    }

    /// Net cell `k` of the aperture `port` punches, for a port some slot
    /// of this kind declares.
    fn aperture_cell_at(self, port: Port, slot: PortId, k: u8) -> (r: (u8, u8))
        requires
            self.spec_port(slot as int) == Some(port),
            k < 4,
        ensures
            (r.0 as int, r.1 as int) == self.aperture_cell(port, k as int),
    {
        let (w, h) = self.floor();
        let c = COURSES;
        let a = k / 2;
        let b = k % 2;
        match port {
            Port::Door { wall, offset } => {
                if wall == 0 {
                    (c + offset + b, c - 1 - a)
                } else if wall == 1 {
                    (c + w + a, c + offset + b)
                } else if wall == 2 {
                    (c + offset + b, c + h + a)
                } else {
                    (c - 1 - a, c + offset + b)
                }
            },
            Port::Ladder { x, y } => (2 * c + 2 * w - 1 - (x + b), c + y + a),
            Port::Hatch { x, y } => (c + x + b, c + y + a),
        }
    }

    /// The net cells one port punches: two by two, always. `None` where
    /// the kind declares no such port — an undeclared slot punches
    /// nothing, so the wall stays a wall.
    pub fn aperture_cells(self, port: PortId) -> (r: Option<[(u8, u8); 4]>)
        ensures
            r is Some <==> self.spec_port(port as int) is Some,
            r matches Some(cells) ==> forall|k: int|
                0 <= k < 4 ==> (#[trigger] cells[k].0 as int, cells[k].1 as int)
                    == self.aperture_cell(self.spec_port(port as int)->0, k),
    {
        match self.port(port) {
            None => None,
            Some(declared) => {
                let cells = [
                    self.aperture_cell_at(declared, port, 0),
                    self.aperture_cell_at(declared, port, 1),
                    self.aperture_cell_at(declared, port, 2),
                    self.aperture_cell_at(declared, port, 3),
                ];
                Some(cells)
            },
        }
    }

    /// Whether net cell `(x, y)` lies in any declared port's aperture.
    fn in_aperture(self, x: u8, y: u8) -> (r: bool)
        ensures
            r == self.in_some_aperture(x as int, y as int),
    {
        let mut slot: u8 = 0;
        while slot < 6
            invariant
                slot <= 6,
                forall|p: int, k: int|
                    0 <= p < slot && 0 <= k < 4 && #[trigger] self.spec_port(p) is Some
                        ==> #[trigger] self.aperture_cell(self.spec_port(p)->0, k) != (
                        x as int,
                        y as int,
                    ),
            decreases 6 - slot,
        {
            if let Some(cells) = self.aperture_cells(slot) {
                let mut k: usize = 0;
                while k < 4
                    invariant
                        k <= 4,
                        self.spec_port(slot as int) is Some,
                        forall|j: int|
                            0 <= j < 4 ==> (#[trigger] cells[j].0 as int, cells[j].1 as int)
                                == self.aperture_cell(self.spec_port(slot as int)->0, j),
                        forall|j: int|
                            0 <= j < k ==> self.aperture_cell(self.spec_port(slot as int)->0, j) != (
                                x as int,
                                y as int,
                            ),
                    decreases 4 - k,
                {
                    if cells[k].0 == x && cells[k].1 == y {
                        assert(self.aperture_cell(self.spec_port(slot as int)->0, k as int) == (
                            x as int,
                            y as int,
                        ));
                        return true;
                    }
                    k = k + 1;
                }
            }
            slot = slot + 1;
        }
        false
    }

    /// Whether net cell `(x, y)` is **deck a declared door stands on** —
    /// the floor cells a body's first step lands in. Not a tile class: a
    /// rule about who may choose them.
    pub fn doorstep(self, x: u8, y: u8) -> (r: bool)
        ensures
            r == self.spec_doorstep(x as int, y as int),
    {
        let (width, depth) = self.floor();
        let mut slot: u8 = 0;
        while slot < 6
            invariant
                slot <= 6,
                (width, depth) == self.spec_floor(),
                forall|p: int, along: int|
                    0 <= p < slot && 0 <= along < 2 && is_door(#[trigger] self.spec_port(p))
                        ==> #[trigger] self.doorstep_cell(self.spec_port(p)->0, along) != (
                        x as int,
                        y as int,
                    ),
            decreases 6 - slot,
        {
            if let Some(Port::Door { wall, offset }) = self.port(slot) {
                let mut along: u8 = 0;
                while along < APERTURE
                    invariant
                        along <= 2,
                        (width, depth) == self.spec_floor(),
                        self.spec_port(slot as int) == Some(Port::Door { wall, offset }),
                        offset <= 3,
                        forall|j: int|
                            0 <= j < along ==> self.doorstep_cell(Port::Door { wall, offset }, j)
                                != (x as int, y as int),
                    decreases 2 - along,
                {
                    let m = wall % 4;
                    let step = if m == 0 {
                        (offset + along, 0u8)
                    } else if m == 1 {
                        (width - 1, offset + along)
                    } else if m == 2 {
                        (offset + along, depth - 1)
                    } else {
                        (0u8, offset + along)
                    };
                    if COURSES + step.0 == x && COURSES + step.1 == y {
                        assert(self.doorstep_cell(self.spec_port(slot as int)->0, along as int) == (
                            x as int,
                            y as int,
                        ));
                        return true;
                    }
                    along = along + 1;
                }
            }
            slot = slot + 1;
        }
        false
    }

    /// **The entry path of a declared door**: the straight run in from
    /// that doorway — the deck lane its aperture opens onto, carried
    /// clean across the room, and the wall and ceiling cells standing
    /// over that lane.
    pub fn entry_path(self, x: u8, y: u8) -> (r: bool)
        ensures
            r == self.spec_entry_path(x as int, y as int),
    {
        let surf = match self.surface_of(x, y) {
            Some(surf) => surf,
            None => return false,
        };
        let (width, _) = self.floor();
        let mut slot: u8 = 0;
        while slot < 6
            invariant
                slot <= 6,
                width == self.spec_floor().0,
                self.spec_surface_of(x as int, y as int) == Some(surf),
                forall|p: int| 0 <= p < slot ==> !#[trigger] self.door_lane(p, x as int, y as int),
            decreases 6 - slot,
        {
            if let Some(Port::Door { wall, offset }) = self.port(slot) {
                let across = wall % 2 == 0;
                let hit = match surf {
                    Surf::Floor => {
                        let n = if across {
                            x - COURSES
                        } else {
                            y - COURSES
                        };
                        n >= offset && n < offset + APERTURE
                    },
                    Surf::Ceiling => {
                        let n = if across {
                            2 * COURSES + 2 * width - 1 - x
                        } else {
                            y - COURSES
                        };
                        n >= offset && n < offset + APERTURE
                    },
                    Surf::Aft | Surf::Front => {
                        let n = x - COURSES;
                        across && n >= offset && n < offset + APERTURE
                    },
                    Surf::Port | Surf::Starboard => {
                        let n = y - COURSES;
                        !across && n >= offset && n < offset + APERTURE
                    },
                };
                if hit {
                    assert(self.door_lane(slot as int, x as int, y as int));
                    return true;
                }
            }
            slot = slot + 1;
        }
        false
    }

    /// **The cells a room's own hardware already fills**: the deck its
    /// handshake is worked over, the side wall that handshake turns onto
    /// when it stands in a corner, and the patch of ceiling its pendant
    /// hangs from. Riding rooms declare neither.
    pub fn fixture(self, x: u8, y: u8) -> (r: bool)
        ensures
            r == self.spec_fixture(x as int, y as int),
    {
        let surf = match self.surface_of(x, y) {
            Some(surf) => surf,
            None => return false,
        };
        let (w, h) = self.floor();
        match surf {
            Surf::Floor => match self.handshake() {
                Some((hx, _)) => x == hx && y == COURSES,
                None => false,
            },
            Surf::Port | Surf::Starboard => match self.handshake() {
                Some((hx, hy)) => {
                    let course = COURSES - 1 - hy;
                    y == COURSES && ((hx == COURSES && x + 1 + course == COURSES) || (hx + 1
                        == COURSES + w && x == COURSES + w + course))
                },
                None => false,
            },
            Surf::Ceiling => {
                let i = 2 * COURSES + 2 * w - 1 - x;
                let j = y - COURSES;
                !self.riding() && i + 1 >= (w + 1) / 2 && i <= w / 2 && j + 1 >= (h + 1) / 2 && j
                    <= h / 2
            },
            _ => false,
        }
    }

    /// What net cell `(x, y)` is, or `None` where there is no cell. The
    /// single declaration the rules and the paint both read. An offer
    /// band never lies in a declared door's way in.
    pub fn tile_of(self, x: u8, y: u8) -> (r: Option<Tile>)
        ensures
            r == self.spec_tile_of(x as int, y as int),
    {
        let surf = match self.surface_of(x, y) {
            Some(surf) => surf,
            None => return None,
        };
        if self.in_aperture(x, y) {
            return Some(Tile::Threshold);
        }
        if self.fixture(x, y) {
            return Some(Tile::Fixture);
        }
        let (_, h) = self.floor();
        let aft = matches!(surf, Surf::Aft) || (matches!(surf, Surf::Floor | Surf::Ceiling) && y
            == COURSES);
        let front = matches!(surf, Surf::Front) || (matches!(surf, Surf::Floor | Surf::Ceiling) && y
            + 2 >= COURSES + h);
        let stocks = matches!(self, RoomKind::Trade | RoomKind::Wreck);
        let offers = matches!(self, RoomKind::Trade | RoomKind::Parlor);
        let tile = if matches!(self, RoomKind::Burner) {
            Tile::Consume
        } else if stocks && aft {
            Tile::Stock
        } else if offers && front {
            Tile::Offer
        } else {
            Tile::Plain
        };
        assert(tile == self.band_tile(surf, y as int));
        if tile == Tile::Offer && self.entry_path(x, y) {
            Some(Tile::Plain)
        } else {
            Some(tile)
        }
    }

    /// The floor chart's bounds, `(x0, y0, w, h)`.
    pub fn floor_rect(self) -> (r: (u8, u8, u8, u8))
        ensures
            r == (3u8, 3u8, self.spec_floor().0, self.spec_floor().1),
    {
        let (w, h) = self.floor();
        (COURSES, COURSES, w, h)
    }
}


/// A room's placement on the shared lattice. Integers only: no free
/// rotation, no fractional offset, no floating point anywhere in the
/// attach contract.
#[derive(Clone, Copy, Debug, PartialEq, Eq, Structural)]
pub struct Pose {
    /// Lattice origin of the room's floor box, in cells.
    pub x: i32,
    pub y: i32,
    /// Storey.
    pub z: i32,
    /// Quarter turns clockwise, `0..4`.
    pub yaw: u8,
}

/// How far from the lattice origin a room may be placed, on every axis.
/// The lattice is finite; a placement past its edge is `Blocked`.
pub const LATTICE_REACH: i32 = 1_000_000;

/// Whether a pose lies within the lattice's reach with a proper yaw.
pub open spec fn pose_ok(pose: Pose) -> bool {
    &&& -LATTICE_REACH <= pose.x <= LATTICE_REACH
    &&& -LATTICE_REACH <= pose.y <= LATTICE_REACH
    &&& -LATTICE_REACH <= pose.z <= LATTICE_REACH
    &&& pose.yaw < 4
}

/// One attached room.
#[derive(Clone, Copy, Debug, PartialEq, Eq)]
pub struct Room {
    pub kind: RoomKind,
    pub pose: Pose,
    /// Which room and port each of this room's ports is mated to.
    pub mates: [Option<(RoomId, PortId)>; PORTS],
    /// How this room came to be attached: `None` for the root.
    pub anchor: Option<(RoomId, PortId, PortId)>,
}

/// Why an attach or a detach was refused. One variant per rule.
#[derive(Clone, Copy, Debug, PartialEq, Eq, Structural)]
pub enum Refusal {
    /// No such port, or no such room.
    Absent,
    /// The port is already in use.
    Mated,
    /// Ports that cannot mate: a door only ever mates a door, a ladder
    /// only ever a hatch.
    Kinds,
    /// The new room's box intersects placed geometry, or would leave the
    /// lattice.
    Blocked,
    /// A seam that will not close identical-or-disjoint.
    Aperture,
    /// The room budget is spent.
    Full,
    /// The cabin is the root; it does not part from itself.
    Root,
    /// A crew body is in the detaching room, or beyond it.
    Aboard,
    /// Cargo of the player's rests in the detaching room, or beyond it.
    Cargo,
    /// The room's business is unfinished.
    Pending,
}

/// One cell of the lattice.
pub type Cell3 = (i32, i32, i32);

/// One aperture edge: the pair of cells a port's opening joins.
#[derive(Clone, Copy, Debug)]
struct Seam {
    inside: Cell3,
    outside: Cell3,
}

/// Rotate a local floor cell into a room's own box frame.
pub open spec fn spec_rot(i: int, j: int, w: int, h: int, yaw: int) -> (int, int) {
    if yaw == 0 {
        (i, j)
    } else if yaw == 1 {
        (h - 1 - j, i)
    } else if yaw == 2 {
        (w - 1 - i, h - 1 - j)
    } else {
        (j, w - 1 - i)
    }
}

/// Rotate a direction by `yaw` quarter turns clockwise.
pub open spec fn spec_rot_dir(d: (int, int), yaw: int) -> (int, int) {
    if yaw == 0 {
        d
    } else if yaw == 1 {
        (-d.1, d.0)
    } else if yaw == 2 {
        (-d.0, -d.1)
    } else {
        (d.1, -d.0)
    }
}

/// A local wall's outward normal.
pub open spec fn spec_wall_normal(wall: int) -> (int, int) {
    if wall == 0 {
        (0, -1)
    } else if wall == 1 {
        (1, 0)
    } else if wall == 2 {
        (0, 1)
    } else {
        (-1, 0)
    }
}

/// A room box on the lattice, `(x0, y0, x1, y1)` half-open.
pub open spec fn box_of(kind: RoomKind, pose: Pose) -> (int, int, int, int) {
    let (bw, bh) = if pose.yaw % 2 == 0 {
        (kind.width(), kind.depth())
    } else {
        (kind.depth(), kind.width())
    };
    (pose.x as int, pose.y as int, pose.x + bw, pose.y + bh)
}

/// Whether a room of `kind` at `pose` holds lattice cell `c`.
pub open spec fn body_contains(kind: RoomKind, pose: Pose, c: (int, int, int)) -> bool {
    let b = box_of(kind, pose);
    c.2 == pose.z && b.0 <= c.0 < b.2 && b.1 <= c.1 < b.3
}

/// Whether two boxes share a cell.
pub open spec fn boxes_overlap(a: (int, int, int, int), b: (int, int, int, int)) -> bool {
    a.0 < b.2 && b.0 < a.2 && a.1 < b.3 && b.1 < a.3
}

/// A local floor cell's lattice cell.
pub open spec fn cell_at(kind: RoomKind, pose: Pose, i: int, j: int) -> (int, int, int) {
    let r = spec_rot(i, j, kind.width(), kind.depth(), pose.yaw as int);
    (pose.x + r.0, pose.y + r.1, pose.z as int)
}

/// How many seams port slot `port` opens: two for a door, four for the
/// vertical pair, none for an undeclared slot.
pub open spec fn seam_count(kind: RoomKind, port: int) -> int {
    match kind.spec_port(port) {
        Some(Port::Door { .. }) => 2,
        Some(_) => 4,
        None => 0,
    }
}

/// The local floor cell behind seam `k` of port slot `port`.
pub open spec fn seam_local(kind: RoomKind, port: int, k: int) -> (int, int) {
    let w = kind.width();
    let h = kind.depth();
    match kind.spec_port(port) {
        Some(Port::Door { wall, offset }) => if wall == 0 {
            (offset + k, 0)
        } else if wall == 1 {
            (w - 1, offset + k)
        } else if wall == 2 {
            (offset + k, h - 1)
        } else {
            (0, offset + k)
        },
        Some(Port::Ladder { x, y }) => (x + k % 2, y + k / 2),
        Some(Port::Hatch { x, y }) => (x + k % 2, y + k / 2),
        None => (0, 0),
    }
}

/// The lattice step from a seam's inside cell to its outside cell.
pub open spec fn seam_step(kind: RoomKind, pose: Pose, port: int) -> (int, int, int) {
    match kind.spec_port(port) {
        Some(Port::Door { wall, .. }) => {
            let n = spec_rot_dir(spec_wall_normal(wall as int), pose.yaw as int);
            (n.0, n.1, 0)
        },
        Some(Port::Ladder { .. }) => (0, 0, 1),
        Some(Port::Hatch { .. }) => (0, 0, -1),
        None => (0, 0, 0),
    }
}

/// The inside cell of seam `k`.
pub open spec fn seam_in(kind: RoomKind, pose: Pose, port: int, k: int) -> (int, int, int) {
    let l = seam_local(kind, port, k);
    cell_at(kind, pose, l.0, l.1)
}

/// The outside cell of seam `k`.
pub open spec fn seam_out(kind: RoomKind, pose: Pose, port: int, k: int) -> (int, int, int) {
    let i = seam_in(kind, pose, port, k);
    let s = seam_step(kind, pose, port);
    (i.0 + s.0, i.1 + s.1, i.2 + s.2)
}

/// Whether some of port `port`'s opening leads into the box of a room of
/// `okind` at `opose`.
pub open spec fn leads_into(
    kind: RoomKind,
    pose: Pose,
    port: int,
    okind: RoomKind,
    opose: Pose,
) -> bool {
    exists|k: int|
        0 <= k < seam_count(kind, port) && #[trigger] body_contains(
            okind,
            opose,
            seam_out(kind, pose, port, k),
        )
}

/// Whether two ports' openings are the same opening, seen from either
/// side: every seam of the one is a seam of the other, turned round.
pub open spec fn coincide(a: RoomKind, ap: Pose, p: int, b: RoomKind, bp: Pose, q: int) -> bool {
    &&& seam_count(a, p) > 0
    &&& seam_count(a, p) == seam_count(b, q)
    &&& forall|k: int| 0 <= k < seam_count(a, p) ==> #[trigger] seam_matched(a, ap, p, b, bp, q, k)
}

/// Whether seam `k` of port `p` is some seam of port `q` turned round.
pub open spec fn seam_matched(
    a: RoomKind,
    ap: Pose,
    p: int,
    b: RoomKind,
    bp: Pose,
    q: int,
    k: int,
) -> bool {
    exists|t: int|
        0 <= t < seam_count(b, q) && #[trigger] seam_in(b, bp, q, t) == seam_out(a, ap, p, k)
            && seam_out(b, bp, q, t) == seam_in(a, ap, p, k)
}

/// Lexicographic order on lattice columns.
pub open spec fn lex_le(a: (int, int), b: (int, int)) -> bool {
    a.0 < b.0 || (a.0 == b.0 && a.1 <= b.1)
}

/// Lexicographic minimum of a cell list; `(0, 0)` for an empty one.
pub open spec fn lex_min(s: Seq<(int, int)>) -> (int, int)
    decreases s.len(),
{
    if s.len() == 0 {
        (0, 0)
    } else if s.len() == 1 {
        s[0]
    } else {
        let m = lex_min(s.drop_last());
        if lex_le(m, s.last()) {
            m
        } else {
            s.last()
        }
    }
}

/// The lattice columns a port's seams lead out to.
pub open spec fn outside_columns(kind: RoomKind, pose: Pose, port: int) -> Seq<(int, int)> {
    Seq::new(
        seam_count(kind, port) as nat,
        |k: int| (seam_out(kind, pose, port, k).0, seam_out(kind, pose, port, k).1),
    )
}

/// The lattice columns a port's seams open from.
pub open spec fn inside_columns(kind: RoomKind, pose: Pose, port: int) -> Seq<(int, int)> {
    Seq::new(
        seam_count(kind, port) as nat,
        |k: int| (seam_in(kind, pose, port, k).0, seam_in(kind, pose, port, k).1),
    )
}

/// Which ports may mate, and what storey the newcomer lands on: a door
/// mates a door on the same storey, a ladder a hatch one storey up, a
/// hatch a ladder one storey down. `None` for ports that cannot mate.
pub open spec fn spec_vertical(host: Port, new: Port) -> Option<int> {
    match (host, new) {
        (Port::Door { .. }, Port::Door { .. }) => Some(0),
        (Port::Ladder { .. }, Port::Hatch { .. }) => Some(1),
        (Port::Hatch { .. }, Port::Ladder { .. }) => Some(-1),
        _ => None,
    }
}

/// Whether `r` quarter turns point door wall `nw` back at a door on wall
/// `hw` of a host turned `hyaw`.
pub open spec fn turn_faces(hw: int, hyaw: int, nw: int, r: int) -> bool {
    let facing = spec_rot_dir(spec_wall_normal(hw), hyaw);
    spec_rot_dir(spec_wall_normal(nw), r) == (-facing.0, -facing.1)
}

/// The first turn that points the new door back at the old one.
pub open spec fn door_turn(hw: int, hyaw: int, nw: int) -> Option<int> {
    if turn_faces(hw, hyaw, nw, 0) {
        Some(0)
    } else if turn_faces(hw, hyaw, nw, 1) {
        Some(1)
    } else if turn_faces(hw, hyaw, nw, 2) {
        Some(2)
    } else if turn_faces(hw, hyaw, nw, 3) {
        Some(3)
    } else {
        None
    }
}

/// The yaw a mate determines: a door turns the newcomer to face the
/// host's door; the vertical pair keeps the host's yaw.
pub open spec fn mate_yaw(host: Port, hyaw: int, new: Port) -> Option<int> {
    match (host, new) {
        (Port::Door { wall: hw, .. }, Port::Door { wall: nw, .. }) => door_turn(
            hw as int,
            hyaw,
            nw as int,
        ),
        _ => Some(hyaw),
    }
}

/// Whether integer coordinates lie within the lattice's reach.
pub open spec fn within_reach(x: int, y: int, z: int) -> bool {
    -LATTICE_REACH <= x <= LATTICE_REACH && -LATTICE_REACH <= y <= LATTICE_REACH
        && -LATTICE_REACH <= z <= LATTICE_REACH
}

/// Rank of how far into validation a refusal got.
pub open spec fn spec_reached(refusal: Refusal) -> int {
    match refusal {
        Refusal::Absent => 0,
        Refusal::Kinds => 1,
        Refusal::Mated => 2,
        Refusal::Blocked => 3,
        Refusal::Aperture => 4,
        _ => 5,
    }
}


/// Rotate a local floor cell into a room's own box frame.
fn rot(i: u8, j: u8, w: u8, h: u8, yaw: u8) -> (r: (i32, i32))
    ensures
        (r.0 as int, r.1 as int) == spec_rot(i as int, j as int, w as int, h as int, yaw as int),
{
    let (i, j, w, h) = (i as i32, j as i32, w as i32, h as i32);
    if yaw == 0 {
        (i, j)
    } else if yaw == 1 {
        (h - 1 - j, i)
    } else if yaw == 2 {
        (w - 1 - i, h - 1 - j)
    } else {
        (j, w - 1 - i)
    }
}

/// Rotate a unit direction by `yaw` quarter turns clockwise.
fn rot_dir(d: (i32, i32), yaw: u8) -> (r: (i32, i32))
    requires
        -1 <= d.0 <= 1,
        -1 <= d.1 <= 1,
    ensures
        (r.0 as int, r.1 as int) == spec_rot_dir((d.0 as int, d.1 as int), yaw as int),
        -1 <= r.0 <= 1,
        -1 <= r.1 <= 1,
{
    if yaw == 0 {
        d
    } else if yaw == 1 {
        (-d.1, d.0)
    } else if yaw == 2 {
        (-d.0, -d.1)
    } else {
        (d.1, -d.0)
    }
}

/// A local wall's outward normal.
fn wall_normal(wall: u8) -> (r: (i32, i32))
    ensures
        (r.0 as int, r.1 as int) == spec_wall_normal(wall as int),
        -1 <= r.0 <= 1,
        -1 <= r.1 <= 1,
{
    if wall == 0 {
        (0, -1)
    } else if wall == 1 {
        (1, 0)
    } else if wall == 2 {
        (0, 1)
    } else {
        (-1, 0)
    }
}

/// A lattice cell as mathematical integers.
pub open spec fn cell_int(c: Cell3) -> (int, int, int) {
    (c.0 as int, c.1 as int, c.2 as int)
}

/// Whether seam `b` is seam `a` seen from the other side.
spec fn reversed(a: Seam, b: Seam) -> bool {
    cell_int(b.inside) == cell_int(a.outside) && cell_int(b.outside) == cell_int(a.inside)
}

/// Whether some seam of `theirs` is `seam` turned round.
fn has_reverse(theirs: &Vec<Seam>, seam: Seam) -> (r: bool)
    ensures
        r == exists|u: int| 0 <= u < theirs.len() && reversed(seam, #[trigger] theirs@[u]),
{
    let mut t: usize = 0;
    while t < theirs.len()
        invariant
            t <= theirs.len(),
            forall|u: int| 0 <= u < t ==> !reversed(seam, #[trigger] theirs@[u]),
        decreases theirs.len() - t,
    {
        let other = theirs[t];
        if other.inside.0 == seam.outside.0 && other.inside.1 == seam.outside.1 && other.inside.2
            == seam.outside.2 && other.outside.0 == seam.inside.0 && other.outside.1
            == seam.inside.1 && other.outside.2 == seam.inside.2 {
            assert(reversed(seam, theirs@[t as int]));
            return true;
        }
        t = t + 1;
    }
    false
}

impl Room {
    /// The room's box on the lattice, `(x0, y0, x1, y1)` half-open.
    pub fn box_rect(&self) -> (r: (i32, i32, i32, i32))
        requires
            pose_ok(self.pose),
        ensures
            (r.0 as int, r.1 as int, r.2 as int, r.3 as int) == box_of(self.kind, self.pose),
    {
        let (w, h) = self.kind.floor();
        let (bw, bh) = if self.pose.yaw % 2 == 0 {
            (w as i32, h as i32)
        } else {
            (h as i32, w as i32)
        };
        (self.pose.x, self.pose.y, self.pose.x + bw, self.pose.y + bh)
    }

    /// Whether lattice cell `cell` lies in this room's interior.
    pub fn contains(&self, cell: Cell3) -> (r: bool)
        requires
            pose_ok(self.pose),
        ensures
            r == body_contains(self.kind, self.pose, cell_int(cell)),
    {
        let (x0, y0, x1, y1) = self.box_rect();
        cell.2 == self.pose.z && cell.0 >= x0 && cell.0 < x1 && cell.1 >= y0 && cell.1 < y1
    }

    /// A local floor cell's lattice cell.
    pub fn cell_of(&self, i: u8, j: u8) -> (r: Cell3)
        requires
            pose_ok(self.pose),
        ensures
            cell_int(r) == cell_at(self.kind, self.pose, i as int, j as int),
    {
        let (w, h) = self.kind.floor();
        let (rx, ry) = rot(i, j, w, h, self.pose.yaw);
        (self.pose.x + rx, self.pose.y + ry, self.pose.z)
    }

    /// The seams one port opens: the cell pairs its aperture joins. An
    /// undeclared slot opens none, which is how a dead end reads to every
    /// rule at once.
    fn seams(&self, port: PortId) -> (r: Vec<Seam>)
        requires
            pose_ok(self.pose),
        ensures
            r.len() == seam_count(self.kind, port as int),
            forall|k: int|
                0 <= k < r.len() ==> cell_int((#[trigger] r@[k]).inside) == seam_in(
                    self.kind,
                    self.pose,
                    port as int,
                    k,
                ) && cell_int(r@[k].outside) == seam_out(self.kind, self.pose, port as int, k),
    {
        let (w, h) = self.kind.floor();
        let mut seams: Vec<Seam> = Vec::new();
        match self.kind.port(port) {
            None => {},
            Some(Port::Door { wall, offset }) => {
                let normal = rot_dir(wall_normal(wall), self.pose.yaw);
                let mut along: u8 = 0;
                while along < APERTURE
                    invariant
                        along <= 2,
                        pose_ok(self.pose),
                        (w, h) == self.kind.spec_floor(),
                        self.kind.spec_port(port as int) == Some(Port::Door { wall, offset }),
                        (normal.0 as int, normal.1 as int) == spec_rot_dir(
                            spec_wall_normal(wall as int),
                            self.pose.yaw as int,
                        ),
                        -1 <= normal.0 <= 1,
                        -1 <= normal.1 <= 1,
                        seams.len() == along,
                        forall|k: int|
                            0 <= k < seams.len() ==> cell_int((#[trigger] seams@[k]).inside) == seam_in(
                                self.kind,
                                self.pose,
                                port as int,
                                k,
                            ) && cell_int(seams@[k].outside) == seam_out(
                                self.kind,
                                self.pose,
                                port as int,
                                k,
                            ),
                    decreases 2 - along,
                {
                    let (i, j) = if wall == 0 {
                        (offset + along, 0u8)
                    } else if wall == 1 {
                        (w - 1, offset + along)
                    } else if wall == 2 {
                        (offset + along, h - 1)
                    } else {
                        (0u8, offset + along)
                    };
                    let inside = self.cell_of(i, j);
                    seams.push(
                        Seam {
                            inside,
                            outside: (inside.0 + normal.0, inside.1 + normal.1, inside.2),
                        },
                    );
                    along = along + 1;
                }
            },
            Some(declared) => {
                let (x, y, step) = match declared {
                    Port::Ladder { x, y } => (x, y, 1i32),
                    Port::Hatch { x, y } => (x, y, -1i32),
                    Port::Door { .. } => (0u8, 0u8, 0i32),
                };
                let mut k: u8 = 0;
                while k < 4
                    invariant
                        k <= 4,
                        pose_ok(self.pose),
                        self.kind.spec_port(port as int) == Some(declared),
                        !(declared is Door),
                        declared matches Port::Ladder { x: lx, y: ly } ==> lx == x && ly == y
                            && step == 1,
                        declared matches Port::Hatch { x: hx, y: hy } ==> hx == x && hy == y
                            && step == -1,
                        x <= 6,
                        y <= 4,
                        seams.len() == k,
                        forall|t: int|
                            0 <= t < seams.len() ==> cell_int((#[trigger] seams@[t]).inside) == seam_in(
                                self.kind,
                                self.pose,
                                port as int,
                                t,
                            ) && cell_int(seams@[t].outside) == seam_out(
                                self.kind,
                                self.pose,
                                port as int,
                                t,
                            ),
                    decreases 4 - k,
                {
                    let inside = self.cell_of(x + k % 2, y + k / 2);
                    seams.push(Seam { inside, outside: (inside.0, inside.1, inside.2 + step) });
                    k = k + 1;
                }
            },
        }
        seams
    }

    /// Whether two ports' openings are the same opening, seen from either
    /// side. Exact, because the lattice is integer: there is no epsilon.
    fn ports_coincide(&self, port: PortId, other: &Self, other_port: PortId) -> (r: bool)
        requires
            pose_ok(self.pose),
            pose_ok(other.pose),
        ensures
            r == coincide(
                self.kind,
                self.pose,
                port as int,
                other.kind,
                other.pose,
                other_port as int,
            ),
    {
        let mine = self.seams(port);
        let theirs = other.seams(other_port);
        if mine.len() == 0 || mine.len() != theirs.len() {
            return false;
        }
        let mut k: usize = 0;
        while k < mine.len()
            invariant
                k <= mine.len(),
                mine.len() == seam_count(self.kind, port as int),
                theirs.len() == seam_count(other.kind, other_port as int),
                forall|j: int|
                    0 <= j < mine.len() ==> cell_int((#[trigger] mine@[j]).inside) == seam_in(
                        self.kind,
                        self.pose,
                        port as int,
                        j,
                    ) && cell_int(mine@[j].outside) == seam_out(
                        self.kind,
                        self.pose,
                        port as int,
                        j,
                    ),
                forall|j: int|
                    0 <= j < theirs.len() ==> cell_int((#[trigger] theirs@[j]).inside) == seam_in(
                        other.kind,
                        other.pose,
                        other_port as int,
                        j,
                    ) && cell_int(theirs@[j].outside) == seam_out(
                        other.kind,
                        other.pose,
                        other_port as int,
                        j,
                    ),
                forall|j: int|
                    0 <= j < k ==> #[trigger] seam_matched(
                        self.kind,
                        self.pose,
                        port as int,
                        other.kind,
                        other.pose,
                        other_port as int,
                        j,
                    ),
            decreases mine.len() - k,
        {
            let found = has_reverse(&theirs, mine[k]);
            if !found {
                assert forall|u: int|
                    0 <= u < seam_count(other.kind, other_port as int) implies !(seam_in(
                        other.kind,
                        other.pose,
                        other_port as int,
                        u,
                    ) == seam_out(self.kind, self.pose, port as int, k as int) && seam_out(
                        other.kind,
                        other.pose,
                        other_port as int,
                        u,
                    ) == seam_in(self.kind, self.pose, port as int, k as int)) by {
                    assert(!reversed(mine@[k as int], theirs@[u]));
                }
                assert(!seam_matched(
                    self.kind,
                    self.pose,
                    port as int,
                    other.kind,
                    other.pose,
                    other_port as int,
                    k as int,
                ));
                return false;
            }
            let ghost u = choose|u: int| 0 <= u < theirs.len() && reversed(mine@[k as int], theirs@[u]);
            assert(cell_int(theirs@[u].outside) == seam_out(
                other.kind,
                other.pose,
                other_port as int,
                u,
            ));
            assert(cell_int(theirs@[u].inside) == seam_in(
                other.kind,
                other.pose,
                other_port as int,
                u,
            ));
            assert(cell_int(mine@[k as int].inside) == seam_in(
                self.kind,
                self.pose,
                port as int,
                k as int,
            ));
            k = k + 1;
        }
        true
    }
}


/// The room graph and the lattice it lives on.
#[derive(Clone, Debug)]
pub struct Rooms {
    slots: [Option<Room>; MAX_ROOMS],
    /// Attach order — what the save carries, and what a load replays.
    order: Vec<RoomId>,
}

/// Whether two placed rooms share no cell: different storeys, or boxes
/// that at most touch.
pub open spec fn apart(a: Room, b: Room) -> bool {
    a.pose.z != b.pose.z || !boxes_overlap(box_of(a.kind, a.pose), box_of(b.kind, b.pose))
}

/// Whether a mate entry names a real slot and port.
pub open spec fn mate_ok(m: Option<(RoomId, PortId)>) -> bool {
    m matches Some(e) ==> e.0 < MAX_ROOMS && e.1 < PORTS
}

impl View for Rooms {
    type V = (Seq<Option<Room>>, Seq<RoomId>);

    closed spec fn view(&self) -> Self::V {
        (self.slots@, self.order@)
    }
}

impl Rooms {
    /// The room in slot `id`, if one is attached.
    pub closed spec fn room_at(self, id: int) -> Option<Room> {
        if 0 <= id < MAX_ROOMS {
            self.slots@[id]
        } else {
            None
        }
    }

    /// Attach order.
    pub closed spec fn attach_order(self) -> Seq<RoomId> {
        self.order@
    }

    /// Whether slot `id` holds a room.
    pub open spec fn present(self, id: int) -> bool {
        self.room_at(id) is Some
    }

    /// Two graphs with the same slots and the same attach order hold the
    /// same rooms in the same order.
    pub proof fn lemma_same_view(a: Rooms, b: Rooms)
        requires
            a@ == b@,
        ensures
            forall|id: int| #[trigger] a.room_at(id) == b.room_at(id),
            a.attach_order() == b.attach_order(),
    {
    }

    /// The graph's invariant: the cabin is always there, every room sits
    /// within the lattice's reach, **no two rooms share a cell**, every
    /// mate names a real slot, and the attach order lists each placed
    /// room exactly once.
    pub closed spec fn wf(self) -> bool {
        &&& self.room_at(CABIN as int) is Some
        &&& forall|id: int| #[trigger] self.room_at(id) matches Some(r) ==> pose_ok(r.pose)
        &&& forall|a: int, b: int|
            a != b && self.room_at(a) is Some && self.room_at(b) is Some ==> apart(
                #[trigger] self.room_at(a)->0,
                #[trigger] self.room_at(b)->0,
            )
        &&& forall|id: int, p: int|
            0 <= p < PORTS && self.room_at(id) is Some ==> mate_ok(
                #[trigger] self.room_at(id)->0.mates[p],
            )
        &&& forall|i: int, j: int|
            0 <= i < j < self.order@.len() ==> self.order@[i] != self.order@[j]
        &&& forall|i: int|
            0 <= i < self.order@.len() ==> #[trigger] self.room_at(self.order@[i] as int) is Some
        &&& forall|id: int| #[trigger] self.room_at(id) is Some ==> self.order@.contains(id as u8)
    }

    /// How many slots hold a room, among the first `n`.
    pub open spec fn count_upto(self, n: int) -> int
        decreases n,
    {
        if n <= 0 {
            0
        } else {
            self.count_upto(n - 1) + if self.present(n - 1) {
                1int
            } else {
                0
            }
        }
    }

    /// How many rooms are attached.
    pub open spec fn spec_count(self) -> int {
        self.count_upto(MAX_ROOMS as int)
    }

    /// The kind of room in slot `id`.
    pub open spec fn kind_at(self, id: int) -> Option<RoomKind> {
        match self.room_at(id) {
            Some(r) => Some(r.kind),
            None => None,
        }
    }

    /// The tile net cell `(x, y)` of room `id` reads.
    pub open spec fn tile_at(self, id: int, x: int, y: int) -> Option<Tile> {
        match self.kind_at(id) {
            Some(k) => k.spec_tile_of(x, y),
            None => None,
        }
    }

    /// Whether room `id` is attached and travels with the ship.
    pub open spec fn riding_at(self, id: int) -> bool {
        self.kind_at(id) matches Some(k) && k.spec_riding()
    }

    /// No two attached rooms ever share a cell: the non-overlap law, which
    /// every attach, replay, re-seat and detach preserves.
    pub proof fn lemma_no_shared_cell(self, a: RoomId, b: RoomId)
        requires
            self.wf(),
            a != b,
            self.present(a as int),
            self.present(b as int),
        ensures
            apart(self.room_at(a as int)->0, self.room_at(b as int)->0),
    {
    }

    /// The cabin is always attached.
    pub proof fn lemma_cabin_present(self)
        requires
            self.wf(),
        ensures
            self.present(CABIN as int),
    {
    }

    /// Every attached room sits within the lattice's reach.
    pub proof fn lemma_placed(self, id: int)
        requires
            self.wf(),
            self.present(id),
        ensures
            pose_ok(self.room_at(id)->0.pose),
            0 <= id < MAX_ROOMS,
    {
    }

    /// Every attached room is in the attach order.
    pub proof fn lemma_present_in_order(self, id: int)
        requires
            self.wf(),
            self.present(id),
        ensures
            0 <= id < MAX_ROOMS,
            self.attach_order().contains(id as u8),
    {
    }

    /// Every room in the attach order is attached.
    pub proof fn lemma_order_present(self, i: int)
        requires
            self.wf(),
            0 <= i < self.attach_order().len(),
        ensures
            self.present(self.attach_order()[i] as int),
    {
    }

    /// A graph holding only its root room, at the lattice origin.
    pub fn root(kind: RoomKind) -> (r: Self)
        ensures
            r.wf(),
            r.room_at(CABIN as int) == Some(
                Room {
                    kind,
                    pose: Pose { x: 0, y: 0, z: 0, yaw: 0 },
                    mates: [None; PORTS],
                    anchor: None,
                },
            ),
            forall|id: int| id != CABIN ==> !#[trigger] r.present(id),
            r.attach_order() == seq![CABIN],
    {
        let mut slots: [Option<Room>; MAX_ROOMS] = [None; MAX_ROOMS];
        slots[CABIN as usize] = Some(
            Room {
                kind,
                pose: Pose { x: 0, y: 0, z: 0, yaw: 0 },
                mates: [None; PORTS],
                anchor: None,
            },
        );
        let mut order: Vec<RoomId> = Vec::new();
        order.push(CABIN);
        let r = Rooms { slots, order };
        assert(r.order@ == seq![CABIN]);
        assert(r.order@[0] == CABIN);
        r
    }

    /// The room at `id`, if one is attached.
    pub fn get(&self, id: RoomId) -> (r: Option<&Room>)
        ensures
            r matches Some(room) ==> self.room_at(id as int) == Some(*room),
            r is None ==> self.room_at(id as int) is None,
    {
        if (id as usize) < MAX_ROOMS {
            match &self.slots[id as usize] {
                Some(room) => Some(room),
                None => None,
            }
        } else {
            None
        }
    }

    /// What kind of room `id` is, if any.
    pub fn kind(&self, id: RoomId) -> (r: Option<RoomKind>)
        ensures
            r == self.kind_at(id as int),
    {
        match self.get(id) {
            Some(room) => Some(room.kind),
            None => None,
        }
    }

    /// Every attached room, in id order.
    pub fn iter(&self) -> (r: Vec<(RoomId, Room)>)
        ensures
            forall|i: int|
                0 <= i < r.len() ==> #[trigger] self.room_at(r[i].0 as int) == Some(r[i].1),
            forall|i: int, j: int| 0 <= i < j < r.len() ==> r[i].0 < r[j].0,
            forall|id: int|
                #![trigger self.room_at(id)]
                self.present(id) ==> exists|i: int| 0 <= i < r.len() && r[i].0 == id,
    {
        let mut out: Vec<(RoomId, Room)> = Vec::new();
        let mut id: usize = 0;
        while id < MAX_ROOMS
            invariant
                id <= MAX_ROOMS,
                forall|i: int|
                    0 <= i < out.len() ==> self.room_at((#[trigger] out[i]).0 as int) == Some(out[i].1)
                        && out[i].0 < id,
                forall|i: int, j: int| 0 <= i < j < out.len() ==> out[i].0 < out[j].0,
                forall|k: int|
                    #![trigger self.room_at(k)]
                    0 <= k < id && self.present(k) ==> exists|i: int| 0 <= i < out.len() && out[i].0 == k,
            decreases MAX_ROOMS - id,
        {
            let ghost before = out@;
            if let Some(room) = self.slots[id] {
                out.push((id as RoomId, room));
                assert forall|i: int| 0 <= i < before.len() implies out@[i] == before[i] by {}
                assert forall|k: int|
                    #![trigger self.room_at(k)]
                    0 <= k <= id && self.present(k) implies exists|i: int|
                        0 <= i < out.len() && out[i].0 == k by {
                    if k == id {
                        assert(out[out.len() - 1].0 == k);
                    } else {
                        let i = choose|i: int| 0 <= i < before.len() && before[i].0 == k;
                        assert(out[i].0 == k);
                    }
                }
            }
            id = id + 1;
        }
        out
    }

    /// Attached rooms in attach order — the save's edge list.
    pub fn order(&self) -> (r: &[RoomId])
        ensures
            r@ == self.attach_order(),
    {
        self.order.as_slice()
    }

    /// How many rooms are attached.
    pub fn count(&self) -> (r: usize)
        ensures
            r == self.spec_count(),
            r <= MAX_ROOMS,
    {
        let mut n: usize = 0;
        let mut id: usize = 0;
        while id < MAX_ROOMS
            invariant
                id <= MAX_ROOMS,
                n == self.count_upto(id as int),
                n <= id,
            decreases MAX_ROOMS - id,
        {
            if self.slots[id].is_some() {
                n = n + 1;
            }
            id = id + 1;
        }
        n
    }

    /// What net cell `(x, y)` of room `id` is, or `None` for no cell.
    pub fn tile(&self, id: RoomId, x: u8, y: u8) -> (r: Option<Tile>)
        ensures
            r == self.tile_at(id as int, x as int, y as int),
    {
        match self.kind(id) {
            Some(kind) => kind.tile_of(x, y),
            None => None,
        }
    }

    /// Whether `id` is attached and travels with the ship.
    pub fn riding(&self, id: RoomId) -> (r: bool)
        ensures
            r == self.riding_at(id as int),
    {
        match self.kind(id) {
            Some(kind) => kind.riding(),
            None => false,
        }
    }

    /// The first attached room of `kind`, in id order.
    pub fn find(&self, kind: RoomKind) -> (r: Option<RoomId>)
        ensures
            r matches Some(id) ==> id < MAX_ROOMS && self.kind_at(id as int) == Some(kind) && forall|j: int|
                0 <= j < id ==> self.kind_at(j) != Some(kind),
            r is None ==> forall|j: int| 0 <= j < MAX_ROOMS ==> self.kind_at(j) != Some(kind),
    {
        let mut id: u8 = 0;
        while (id as usize) < MAX_ROOMS
            invariant
                id <= MAX_ROOMS,
                forall|j: int| 0 <= j < id ==> self.kind_at(j) != Some(kind),
            decreases MAX_ROOMS - id,
        {
            if self.kind(id) == Some(kind) {
                return Some(id);
            }
            id = id + 1;
        }
        None
    }
}


impl Rooms {
    /// Whether a room of `kind` at `pose` would share a cell with some
    /// attached room.
    pub open spec fn box_blocked(self, kind: RoomKind, pose: Pose) -> bool {
        exists|id: int|
            0 <= id < MAX_ROOMS && self.present(id) && !apart(
                Room { kind, pose, mates: (#[trigger] self.room_at(id))->0.mates, anchor: None },
                self.room_at(id)->0,
            )
    }

    /// **The pose a mate determines — the only pose there is.** Door to
    /// door turns the newcomer to face the host's door on the host's
    /// storey; ladder to hatch stacks it one storey up, hatch to ladder
    /// one down; either way it is slid so its aperture lands exactly on
    /// the host's. Refusals in the order the rules are asked: no such
    /// room or port, the host port in use, ports that cannot mate, then a
    /// box that is not clear (or that leaves the lattice).
    pub open spec fn spec_mate_pose(
        self,
        anchor: int,
        anchor_port: int,
        kind: RoomKind,
        port: int,
    ) -> Result<Pose, Refusal> {
        match self.room_at(anchor) {
            None => Err(Refusal::Absent),
            Some(host) => {
                if host.kind.spec_port(anchor_port) is None || kind.spec_port(port) is None {
                    Err(Refusal::Absent)
                } else if host.mates[anchor_port] is Some {
                    Err(Refusal::Mated)
                } else {
                    let hp = host.kind.spec_port(anchor_port)->0;
                    let np = kind.spec_port(port)->0;
                    match (spec_vertical(hp, np), mate_yaw(hp, host.pose.yaw as int, np)) {
                        (Some(v), Some(yaw)) => {
                            let z = host.pose.z + v;
                            let base = Pose { x: 0, y: 0, z: 0, yaw: yaw as u8 };
                            let want = lex_min(outside_columns(host.kind, host.pose, anchor_port));
                            let have = lex_min(inside_columns(kind, base, port));
                            let x = want.0 - have.0;
                            let y = want.1 - have.1;
                            if !within_reach(x, y, z) {
                                Err(Refusal::Blocked)
                            } else {
                                let pose = Pose { x: x as i32, y: y as i32, z: z as i32, yaw: yaw as u8 };
                                if self.box_blocked(kind, pose) {
                                    Err(Refusal::Blocked)
                                } else {
                                    Ok(pose)
                                }
                            }
                        },
                        _ => Err(Refusal::Kinds),
                    }
                }
            },
        }
    }

    /// Whether slot `id` is one a seam check looks at.
    pub open spec fn considered(self, skip: Option<RoomId>, id: int) -> bool {
        0 <= id < MAX_ROOMS && self.present(id) && skip != Some(id as u8)
    }

    /// The first free port of `other`, from slot `from` on, whose opening
    /// is the candidate's port `p`'s opening seen from the other side.
    pub open spec fn first_coinciding(
        kind: RoomKind,
        pose: Pose,
        p: int,
        other: Room,
        from: int,
    ) -> Option<int>
        decreases PORTS - from,
    {
        if from < 0 || from >= PORTS {
            None
        } else if other.mates[from] is None && coincide(
            kind,
            pose,
            p,
            other.kind,
            other.pose,
            from,
        ) {
            Some(from)
        } else {
            Self::first_coinciding(kind, pose, p, other, from + 1)
        }
    }

    /// **Every seam closes identical-or-disjoint.** Wherever some of a
    /// candidate port's opening leads into an attached room, all of it
    /// leads through a free opening of that room's own; and nothing
    /// already placed opens half into the candidate's interior.
    pub open spec fn closes(self, kind: RoomKind, pose: Pose, skip: Option<RoomId>) -> bool {
        &&& forall|p: int, id: int|
            0 <= p < PORTS && self.considered(skip, id) && #[trigger] leads_into(
                kind,
                pose,
                p,
                self.room_at(id)->0.kind,
                self.room_at(id)->0.pose,
            ) ==> Self::first_coinciding(kind, pose, p, self.room_at(id)->0, 0) is Some
        &&& forall|id: int, q: int|
            0 <= q < PORTS && self.considered(skip, id) && self.room_at(id)->0.mates[q] is None
                && #[trigger] leads_into(self.room_at(id)->0.kind, self.room_at(id)->0.pose, q, kind, pose)
                ==> exists|p: int|
                0 <= p < PORTS && leads_into(
                    kind,
                    pose,
                    p,
                    self.room_at(id)->0.kind,
                    self.room_at(id)->0.pose,
                ) && #[trigger] Self::first_coinciding(kind, pose, p, self.room_at(id)->0, 0) == Some(
                    q,
                )
    }

    /// Whether `(mine, other, theirs)` is a mate a candidate forms:
    /// its port `mine` leads into room `other`, and `theirs` is the first
    /// free port there whose opening coincides.
    pub open spec fn forms_mate(
        self,
        kind: RoomKind,
        pose: Pose,
        skip: Option<RoomId>,
        m: (PortId, RoomId, PortId),
    ) -> bool {
        &&& m.0 < PORTS
        &&& self.considered(skip, m.1 as int)
        &&& leads_into(
            kind,
            pose,
            m.0 as int,
            self.room_at(m.1 as int)->0.kind,
            self.room_at(m.1 as int)->0.pose,
        )
        &&& Self::first_coinciding(kind, pose, m.0 as int, self.room_at(m.1 as int)->0, 0) == Some(
            m.2 as int,
        )
    }

    /// Whether `mates` is exactly the list of mates a candidate forms, in
    /// `(port, room)` order: each entry one the candidate forms, and every
    /// port that leads into a considered room listed against it.
    pub open spec fn mates_formed(
        self,
        kind: RoomKind,
        pose: Pose,
        skip: Option<RoomId>,
        mates: Seq<(PortId, RoomId, PortId)>,
    ) -> bool {
        &&& forall|i: int| 0 <= i < mates.len() ==> self.forms_mate(kind, pose, skip, #[trigger] mates[i])
        &&& forall|p: int, id: int|
            0 <= p < PORTS && self.considered(skip, id) && #[trigger] leads_into(
                kind,
                pose,
                p,
                self.room_at(id)->0.kind,
                self.room_at(id)->0.pose,
            ) ==> exists|i: int| 0 <= i < mates.len() && (#[trigger] mates[i]).0 == p && mates[i].1 == id
        &&& forall|i: int, j: int|
            0 <= i < j < mates.len() ==> pair_lt(
                (mates[i].0 as int, mates[i].1 as int),
                (mates[j].0 as int, mates[j].1 as int),
            )
    }

    /// The first empty slot at or after `from`.
    pub open spec fn free_from(self, from: int) -> Option<int>
        decreases MAX_ROOMS - from,
    {
        if from < 0 || from >= MAX_ROOMS {
            None
        } else if !self.present(from) {
            Some(from)
        } else {
            self.free_from(from + 1)
        }
    }

    /// What a mate request validates to, budget aside: the mate's pose,
    /// or the rule that refuses it — pose and box first, then every seam.
    pub open spec fn spec_validate(
        self,
        anchor: int,
        anchor_port: int,
        kind: RoomKind,
        port: int,
    ) -> Result<Pose, Refusal> {
        match self.spec_mate_pose(anchor, anchor_port, kind, port) {
            Err(e) => Err(e),
            Ok(pose) => if self.closes(kind, pose, None) {
                Ok(pose)
            } else {
                Err(Refusal::Aperture)
            },
        }
    }

    /// What an attach request comes to: the validated pose, or the rule
    /// that refuses it, the room budget last.
    pub open spec fn spec_attach(
        self,
        anchor: int,
        anchor_port: int,
        kind: RoomKind,
        port: int,
    ) -> Result<Pose, Refusal> {
        match self.spec_validate(anchor, anchor_port, kind, port) {
            Err(e) => Err(e),
            Ok(pose) => if self.free_from(0) is None {
                Err(Refusal::Full)
            } else {
                Ok(pose)
            },
        }
    }
}


/// The lattice columns of a seam list, inside or outside.
spec fn columns(seams: Seq<Seam>, outside: bool) -> Seq<(int, int)> {
    Seq::new(
        seams.len(),
        |k: int|
            if outside {
                (seams[k].outside.0 as int, seams[k].outside.1 as int)
            } else {
                (seams[k].inside.0 as int, seams[k].inside.1 as int)
            },
    )
}

/// Lexicographic minimum of a seam list's columns; `(0, 0)` for none.
fn min_column(seams: &Vec<Seam>, outside: bool) -> (r: (i32, i32))
    ensures
        (r.0 as int, r.1 as int) == lex_min(columns(seams@, outside)),
{
    let ghost cols = columns(seams@, outside);
    if seams.len() == 0 {
        return (0, 0);
    }
    let first = seams[0];
    let mut m = if outside {
        (first.outside.0, first.outside.1)
    } else {
        (first.inside.0, first.inside.1)
    };
    assert(cols.take(1) =~= seq![cols[0]]);
    let mut k: usize = 1;
    while k < seams.len()
        invariant
            1 <= k <= seams.len(),
            cols == columns(seams@, outside),
            (m.0 as int, m.1 as int) == lex_min(cols.take(k as int)),
        decreases seams.len() - k,
    {
        let seam = seams[k];
        let c = if outside {
            (seam.outside.0, seam.outside.1)
        } else {
            (seam.inside.0, seam.inside.1)
        };
        assert(cols.take(k + 1).drop_last() =~= cols.take(k as int));
        assert(cols.take(k + 1).last() == cols[k as int]);
        if !(m.0 < c.0 || (m.0 == c.0 && m.1 <= c.1)) {
            m = c;
        }
        k = k + 1;
    }
    assert(cols.take(seams.len() as int) =~= cols);
    m
}

/// How two declared ports mate: the storey step and the newcomer's yaw,
/// or `None` for ports that cannot mate.
fn mate_turn(host: Port, hyaw: u8, new: Port) -> (r: Option<(i32, u8)>)
    requires
        hyaw < 4,
    ensures
        r is Some <==> (spec_vertical(host, new) is Some && mate_yaw(host, hyaw as int, new) is Some),
        r matches Some(t) ==> t.0 as int == spec_vertical(host, new)->0 && t.1 as int == mate_yaw(
            host,
            hyaw as int,
            new,
        )->0 && t.1 < 4,
{
    match (host, new) {
        (Port::Door { wall: hw, .. }, Port::Door { wall: nw, .. }) => {
            let facing = rot_dir(wall_normal(hw), hyaw);
            let opposed = (-facing.0, -facing.1);
            let normal = wall_normal(nw);
            let t0 = rot_dir(normal, 0);
            let t1 = rot_dir(normal, 1);
            let t2 = rot_dir(normal, 2);
            let t3 = rot_dir(normal, 3);
            if t0.0 == opposed.0 && t0.1 == opposed.1 {
                Some((0, 0))
            } else if t1.0 == opposed.0 && t1.1 == opposed.1 {
                Some((0, 1))
            } else if t2.0 == opposed.0 && t2.1 == opposed.1 {
                Some((0, 2))
            } else if t3.0 == opposed.0 && t3.1 == opposed.1 {
                Some((0, 3))
            } else {
                None
            }
        },
        (Port::Ladder { .. }, Port::Hatch { .. }) => Some((1, hyaw)),
        (Port::Hatch { .. }, Port::Ladder { .. }) => Some((-1, hyaw)),
        _ => None,
    }
}

impl Rooms {
    /// Whether `room`'s box is clear of every placed box on its storey:
    /// sharing boundary planes is expected, sharing one cell is refusal.
    fn box_clear(&self, room: &Room) -> (r: bool)
        requires
            self.wf(),
            pose_ok(room.pose),
        ensures
            r == !self.box_blocked(room.kind, room.pose),
    {
        let (x0, y0, x1, y1) = room.box_rect();
        let mut id: usize = 0;
        while id < MAX_ROOMS
            invariant
                id <= MAX_ROOMS,
                self.wf(),
                pose_ok(room.pose),
                (x0 as int, y0 as int, x1 as int, y1 as int) == box_of(room.kind, room.pose),
                forall|j: int|
                    0 <= j < id && self.present(j) ==> apart(
                        Room {
                            kind: room.kind,
                            pose: room.pose,
                            mates: (#[trigger] self.room_at(j))->0.mates,
                            anchor: None,
                        },
                        self.room_at(j)->0,
                    ),
            decreases MAX_ROOMS - id,
        {
            if let Some(other) = self.slots[id] {
                proof {
                    self.lemma_placed(id as int);
                }
                assert(self.room_at(id as int) == Some(other));
                if other.pose.z == room.pose.z {
                    let (ox0, oy0, ox1, oy1) = other.box_rect();
                    if x0 < ox1 && ox0 < x1 && y0 < oy1 && oy0 < y1 {
                        return false;
                    }
                }
            }
            id = id + 1;
        }
        true
    }

    /// The pose a mate determines, validated against the placed boxes.
    fn mate_pose(&self, anchor: RoomId, anchor_port: PortId, kind: RoomKind, port: PortId) -> (r:
        Result<Room, Refusal>)
        requires
            self.wf(),
        ensures
            match r {
                Ok(room) => self.spec_mate_pose(anchor as int, anchor_port as int, kind, port as int)
                    == Ok::<Pose, Refusal>(room.pose) && room.kind == kind && room.anchor is None
                    && pose_ok(room.pose) && forall|p: int| 0 <= p < PORTS ==> room.mates[p] is None,
                Err(e) => self.spec_mate_pose(anchor as int, anchor_port as int, kind, port as int)
                    == Err::<Pose, Refusal>(e),
            },
    {
        let host = match self.get(anchor) {
            Some(host) => *host,
            None => return Err(Refusal::Absent),
        };
        proof {
            self.lemma_placed(anchor as int);
        }
        let (host_port, new_port) = match (host.kind.port(anchor_port), kind.port(port)) {
            (Some(a), Some(b)) => (a, b),
            _ => return Err(Refusal::Absent),
        };
        if host.mates[anchor_port as usize].is_some() {
            return Err(Refusal::Mated);
        }
        let (vertical, yaw) = match mate_turn(host_port, host.pose.yaw, new_port) {
            Some(turn) => turn,
            None => return Err(Refusal::Kinds),
        };
        let z = host.pose.z + vertical;
        let base = Room {
            kind,
            pose: Pose { x: 0, y: 0, z: 0, yaw },
            mates: [None; PORTS],
            anchor: None,
        };
        let hs = host.seams(anchor_port);
        let bs = base.seams(port);
        let want = min_column(&hs, true);
        let have = min_column(&bs, false);
        assert(columns(hs@, true) =~= outside_columns(host.kind, host.pose, anchor_port as int));
        assert(columns(bs@, false) =~= inside_columns(kind, base.pose, port as int));
        let x = want.0 as i64 - have.0 as i64;
        let y = want.1 as i64 - have.1 as i64;
        if x < -(LATTICE_REACH as i64) || x > LATTICE_REACH as i64 || y < -(LATTICE_REACH as i64)
            || y > LATTICE_REACH as i64 || z < -LATTICE_REACH || z > LATTICE_REACH {
            return Err(Refusal::Blocked);
        }
        let room = Room {
            kind,
            pose: Pose { x: x as i32, y: y as i32, z, yaw },
            mates: [None; PORTS],
            anchor: None,
        };
        if !self.box_clear(&room) {
            return Err(Refusal::Blocked);
        }
        Ok(room)
    }
}


/// Whether some seam in `seams` leads out into `other`'s box.
fn leads(seams: &Vec<Seam>, other: &Room) -> (r: bool)
    requires
        pose_ok(other.pose),
    ensures
        r == exists|k: int|
            0 <= k < seams.len() && body_contains(
                other.kind,
                other.pose,
                cell_int((#[trigger] seams@[k]).outside),
            ),
{
    let mut k: usize = 0;
    while k < seams.len()
        invariant
            k <= seams.len(),
            pose_ok(other.pose),
            forall|j: int|
                0 <= j < k ==> !body_contains(
                    other.kind,
                    other.pose,
                    cell_int((#[trigger] seams@[j]).outside),
                ),
        decreases seams.len() - k,
    {
        if other.contains(seams[k].outside) {
            return true;
        }
        k = k + 1;
    }
    false
}

/// Whether `room`'s port `port` leads into `other`'s box.
fn port_leads(room: &Room, port: PortId, other: &Room) -> (r: bool)
    requires
        pose_ok(room.pose),
        pose_ok(other.pose),
    ensures
        r == leads_into(room.kind, room.pose, port as int, other.kind, other.pose),
{
    let seams = room.seams(port);
    let r = leads(&seams, other);
    if r {
        proof {
            let k = choose|k: int|
                0 <= k < seams.len() && body_contains(
                    other.kind,
                    other.pose,
                    cell_int((#[trigger] seams@[k]).outside),
                );
            assert(cell_int(seams@[k].outside) == seam_out(room.kind, room.pose, port as int, k));
        }
    } else {
        assert forall|k: int| 0 <= k < seam_count(room.kind, port as int) implies !body_contains(
            other.kind,
            other.pose,
            #[trigger] seam_out(room.kind, room.pose, port as int, k),
        ) by {
            assert(cell_int(seams@[k].outside) == seam_out(room.kind, room.pose, port as int, k));
        }
    }
    r
}

/// The first free port of `other` whose opening is `room`'s `port`
/// seen from the other side.
fn coinciding_port(room: &Room, port: PortId, other: &Room) -> (r: Option<PortId>)
    requires
        pose_ok(room.pose),
        pose_ok(other.pose),
    ensures
        match r {
            Some(q) => Rooms::first_coinciding(room.kind, room.pose, port as int, *other, 0) == Some(
                q as int,
            ) && q < PORTS,
            None => Rooms::first_coinciding(room.kind, room.pose, port as int, *other, 0) is None,
        },
{
    let mut q: u8 = 0;
    while (q as usize) < PORTS
        invariant
            q <= PORTS,
            pose_ok(room.pose),
            pose_ok(other.pose),
            Rooms::first_coinciding(room.kind, room.pose, port as int, *other, 0)
                == Rooms::first_coinciding(room.kind, room.pose, port as int, *other, q as int),
        decreases PORTS - q,
    {
        if other.mates[q as usize].is_none() && room.ports_coincide(port, other, q) {
            return Some(q);
        }
        q = q + 1;
    }
    None
}

/// The first mate entry joining room `id`'s port `q`, if any.
fn find_mate(mates: &Vec<(PortId, RoomId, PortId)>, id: RoomId, q: PortId) -> (r: Option<usize>)
    ensures
        r matches Some(i) ==> i < mates.len() && mates@[i as int].1 == id && mates@[i as int].2 == q,
        r is None ==> forall|k: int|
            0 <= k < mates.len() ==> !((#[trigger] mates@[k]).1 == id && mates@[k].2 == q),
{
    let mut i: usize = 0;
    while i < mates.len()
        invariant
            i <= mates.len(),
            forall|k: int| 0 <= k < i ==> !((#[trigger] mates@[k]).1 == id && mates@[k].2 == q),
        decreases mates.len() - i,
    {
        if mates[i].1 == id && mates[i].2 == q {
            return Some(i);
        }
        i = i + 1;
    }
    None
}

/// Lexicographic order on `(port, room)` pairs.
pub open spec fn pair_lt(a: (int, int), b: (int, int)) -> bool {
    a.0 < b.0 || (a.0 == b.0 && a.1 < b.1)
}

impl Rooms {
    /// Every seam the candidate induces, checked identical-or-disjoint.
    /// Returns the mates that form — the intended one plus whatever
    /// coincidences the placement discovered, which is the only way a
    /// cycle is ever created — in `(port, room)` order.
    fn seams_close(&self, candidate: &Room, skip: Option<RoomId>) -> (r: Result<
        Vec<(PortId, RoomId, PortId)>,
        Refusal,
    >)
        requires
            self.wf(),
            pose_ok(candidate.pose),
        ensures
            r is Ok <==> self.closes(candidate.kind, candidate.pose, skip),
            r matches Err(e) ==> e == Refusal::Aperture,
            r matches Ok(mates) ==> self.mates_formed(candidate.kind, candidate.pose, skip, mates@),
    {
        let ghost kind = candidate.kind;
        let ghost pose = candidate.pose;
        let mut mates: Vec<(PortId, RoomId, PortId)> = Vec::new();
        let mut port: u8 = 0;
        while (port as usize) < PORTS
            invariant
                port <= PORTS,
                self.wf(),
                pose_ok(candidate.pose),
                kind == candidate.kind,
                pose == candidate.pose,
                forall|i: int|
                    0 <= i < mates.len() ==> self.forms_mate(kind, pose, skip, #[trigger] mates@[i])
                        && mates@[i].0 < port,
                forall|p: int, id: int|
                    0 <= p < port && self.considered(skip, id) && #[trigger] leads_into(
                        kind,
                        pose,
                        p,
                        self.room_at(id)->0.kind,
                        self.room_at(id)->0.pose,
                    ) ==> exists|i: int|
                        0 <= i < mates.len() && (#[trigger] mates@[i]).0 == p && mates@[i].1 == id,
                forall|i: int, j: int|
                    0 <= i < j < mates.len() ==> pair_lt(
                        (mates@[i].0 as int, mates@[i].1 as int),
                        (mates@[j].0 as int, mates@[j].1 as int),
                    ),
            decreases PORTS - port,
        {
            let mut id: u8 = 0;
            while (id as usize) < MAX_ROOMS
                invariant
                    port < PORTS,
                    id <= MAX_ROOMS,
                    self.wf(),
                    pose_ok(candidate.pose),
                    kind == candidate.kind,
                    pose == candidate.pose,
                    forall|i: int|
                        0 <= i < mates.len() ==> self.forms_mate(kind, pose, skip, #[trigger] mates@[i])
                            && pair_lt(
                            (mates@[i].0 as int, mates@[i].1 as int),
                            (port as int, id as int),
                        ),
                    forall|p: int, j: int|
                        (0 <= p < port || (p == port && 0 <= j < id)) && self.considered(skip, j)
                            && #[trigger] leads_into(
                            kind,
                            pose,
                            p,
                            self.room_at(j)->0.kind,
                            self.room_at(j)->0.pose,
                        ) ==> exists|i: int|
                            0 <= i < mates.len() && (#[trigger] mates@[i]).0 == p && mates@[i].1 == j,
                    forall|i: int, j: int|
                        0 <= i < j < mates.len() ==> pair_lt(
                            (mates@[i].0 as int, mates@[i].1 as int),
                            (mates@[j].0 as int, mates@[j].1 as int),
                        ),
                decreases MAX_ROOMS - id,
            {
                if skip != Some(id) {
                    if let Some(other) = self.slots[id as usize] {
                        proof {
                            self.lemma_placed(id as int);
                        }
                        assert(self.room_at(id as int) == Some(other));
                        if port_leads(candidate, port, &other) {
                            match coinciding_port(candidate, port, &other) {
                                None => {
                                    return Err(Refusal::Aperture);
                                },
                                Some(theirs) => {
                                    let ghost before = mates@;
                                    mates.push((port, id, theirs));
                                    assert forall|i: int| 0 <= i < before.len() implies mates@[i]
                                        == before[i] by {}
                                    assert(self.forms_mate(
                                        kind,
                                        pose,
                                        skip,
                                        mates@[mates.len() - 1],
                                    ));
                                },
                            }
                        }
                    }
                }
                id = id + 1;
            }
            port = port + 1;
        }
        // And symmetrically: nothing already placed may open half into
        // the candidate's interior.
        let mut id: u8 = 0;
        while (id as usize) < MAX_ROOMS
            invariant
                id <= MAX_ROOMS,
                self.wf(),
                pose_ok(candidate.pose),
                kind == candidate.kind,
                pose == candidate.pose,
                forall|i: int|
                    0 <= i < mates.len() ==> self.forms_mate(kind, pose, skip, #[trigger] mates@[i]),
                forall|p: int, j: int|
                    0 <= p < PORTS && self.considered(skip, j) && #[trigger] leads_into(
                        kind,
                        pose,
                        p,
                        self.room_at(j)->0.kind,
                        self.room_at(j)->0.pose,
                    ) ==> exists|i: int|
                        0 <= i < mates.len() && (#[trigger] mates@[i]).0 == p && mates@[i].1 == j,
                forall|i: int, j: int|
                    0 <= i < j < mates.len() ==> pair_lt(
                        (mates@[i].0 as int, mates@[i].1 as int),
                        (mates@[j].0 as int, mates@[j].1 as int),
                    ),
                forall|j: int, q: int|
                    0 <= j < id && 0 <= q < PORTS && self.considered(skip, j) && self.room_at(
                        j,
                    )->0.mates[q] is None && #[trigger] leads_into(
                        self.room_at(j)->0.kind,
                        self.room_at(j)->0.pose,
                        q,
                        kind,
                        pose,
                    ) ==> exists|p: int|
                        0 <= p < PORTS && leads_into(
                            kind,
                            pose,
                            p,
                            self.room_at(j)->0.kind,
                            self.room_at(j)->0.pose,
                        ) && #[trigger] Self::first_coinciding(kind, pose, p, self.room_at(j)->0, 0)
                            == Some(q),
            decreases MAX_ROOMS - id,
        {
            if skip != Some(id) {
                if let Some(other) = self.slots[id as usize] {
                    proof {
                        self.lemma_placed(id as int);
                    }
                    assert(self.room_at(id as int) == Some(other));
                    let mut q: u8 = 0;
                    while (q as usize) < PORTS
                        invariant
                            q <= PORTS,
                            id < MAX_ROOMS,
                            self.wf(),
                            pose_ok(candidate.pose),
                            pose_ok(other.pose),
                            kind == candidate.kind,
                            pose == candidate.pose,
                            self.room_at(id as int) == Some(other),
                            self.considered(skip, id as int),
                            forall|i: int|
                                0 <= i < mates.len() ==> self.forms_mate(
                                    kind,
                                    pose,
                                    skip,
                                    #[trigger] mates@[i],
                                ),
                            forall|p: int, j: int|
                                0 <= p < PORTS && self.considered(skip, j) && #[trigger] leads_into(
                                    kind,
                                    pose,
                                    p,
                                    self.room_at(j)->0.kind,
                                    self.room_at(j)->0.pose,
                                ) ==> exists|i: int|
                                    0 <= i < mates.len() && (#[trigger] mates@[i]).0 == p
                                        && mates@[i].1 == j,
                            forall|t: int|
                                0 <= t < q && other.mates[t] is None && #[trigger] leads_into(
                                    other.kind,
                                    other.pose,
                                    t,
                                    kind,
                                    pose,
                                ) ==> exists|p: int|
                                    0 <= p < PORTS && leads_into(kind, pose, p, other.kind, other.pose)
                                        && #[trigger] Self::first_coinciding(kind, pose, p, other, 0)
                                        == Some(t),
                        decreases PORTS - q,
                    {
                        if other.mates[q as usize].is_none() && port_leads(&other, q, candidate) {
                            let found = find_mate(&mates, id, q);
                            let hit = found.is_some();
                            if !hit {
                                proof {
                                    assert forall|p: int|
                                        0 <= p < PORTS && leads_into(
                                            kind,
                                            pose,
                                            p,
                                            other.kind,
                                            other.pose,
                                        ) implies #[trigger] Self::first_coinciding(
                                            kind,
                                            pose,
                                            p,
                                            other,
                                            0,
                                        ) != Some(q as int) by {
                                        assert(leads_into(
                                            kind,
                                            pose,
                                            p,
                                            self.room_at(id as int)->0.kind,
                                            self.room_at(id as int)->0.pose,
                                        ));
                                        let k = choose|k: int|
                                            0 <= k < mates.len() && (#[trigger] mates@[k]).0 == p
                                                && mates@[k].1 == id;
                                        assert(self.forms_mate(kind, pose, skip, mates@[k]));
                                    }
                                    assert(leads_into(
                                        self.room_at(id as int)->0.kind,
                                        self.room_at(id as int)->0.pose,
                                        q as int,
                                        kind,
                                        pose,
                                    ));
                                }
                                return Err(Refusal::Aperture);
                            }
                            proof {
                                let i = found->0 as int;
                                assert(self.forms_mate(kind, pose, skip, mates@[i]));
                                let p = mates@[i].0 as int;
                                assert(Self::first_coinciding(kind, pose, p, other, 0) == Some(
                                    q as int,
                                ));
                            }
                        }
                        q = q + 1;
                    }
                }
            }
            id = id + 1;
        }
        assert(self.closes(kind, pose, skip));
        assert(self.mates_formed(kind, pose, skip, mates@));
        assert(forall|i: int|
            0 <= i < mates.len() ==> self.forms_mate(
                candidate.kind,
                candidate.pose,
                skip,
                #[trigger] mates@[i],
            ));
        assert(forall|p: int, id: int|
            0 <= p < PORTS && self.considered(skip, id) && #[trigger] leads_into(
                candidate.kind,
                candidate.pose,
                p,
                self.room_at(id)->0.kind,
                self.room_at(id)->0.pose,
            ) ==> exists|i: int|
                0 <= i < mates.len() && (#[trigger] mates@[i]).0 == p && mates@[i].1 == id);
        Ok(mates)
    }
}


impl Rooms {
    /// What port `q` of attached room `j` reads once a room of `kind` at
    /// `pose` joins in slot `id`: the newcomer, through a port whose
    /// opening it is, wherever the newcomer forms a mate there; otherwise
    /// what it read before.
    pub open spec fn mate_after(
        self,
        kind: RoomKind,
        pose: Pose,
        id: int,
        j: int,
        q: int,
        now: Option<(RoomId, PortId)>,
    ) -> bool {
        if exists|p: u8| #[trigger] self.forms_mate(kind, pose, None, (p, j as u8, q as u8)) {
            now matches Some(m) && m.0 == id && self.forms_mate(kind, pose, None, (m.1, j as u8, q as u8))
        } else {
            now == self.room_at(j)->0.mates[q]
        }
    }

    /// How `self` stands after a room of `kind` at `pose` joined `old` in
    /// the empty slot `id`, anchored as `anchor`: the newcomer holds the
    /// mates it forms, every mated neighbour answers it, nothing else
    /// moved, and the attach order grew by `id`.
    pub open spec fn placed(
        self,
        old: Rooms,
        id: int,
        kind: RoomKind,
        pose: Pose,
        anchor: Option<(RoomId, PortId, PortId)>,
    ) -> bool {
        &&& 0 <= id < MAX_ROOMS
        &&& !old.present(id)
        &&& self.room_at(id) is Some
        &&& self.room_at(id)->0.kind == kind
        &&& self.room_at(id)->0.pose == pose
        &&& self.room_at(id)->0.anchor == anchor
        &&& forall|p: int|
            0 <= p < PORTS ==> match #[trigger] self.room_at(id)->0.mates[p] {
                Some(m) => old.forms_mate(kind, pose, None, (p as u8, m.0, m.1)),
                None => forall|o: u8, q: u8| !#[trigger] old.forms_mate(kind, pose, None, (p as u8, o, q)),
            }
        &&& forall|j: int| j != id ==> #[trigger] self.present(j) == old.present(j)
        &&& forall|j: int|
            j != id && old.present(j) ==> (#[trigger] self.room_at(j))->0.kind == old.room_at(j)->0.kind
                && self.room_at(j)->0.pose == old.room_at(j)->0.pose && self.room_at(j)->0.anchor
                == old.room_at(j)->0.anchor
        &&& forall|j: int, q: int|
            j != id && old.present(j) && 0 <= q < PORTS ==> #[trigger] old.mate_after(
                kind,
                pose,
                id,
                j,
                q,
                self.room_at(j)->0.mates[q],
            )
        &&& self.attach_order() == old.attach_order().push(id as u8)
    }

    proof fn lemma_first_coinciding_range(kind: RoomKind, pose: Pose, p: int, other: Room, from: int)
        requires
            0 <= from,
        ensures
            Self::first_coinciding(kind, pose, p, other, from) matches Some(q) ==> from <= q < PORTS,
        decreases PORTS - from,
    {
        if from < PORTS {
            Self::lemma_first_coinciding_range(kind, pose, p, other, from + 1);
        }
    }

    /// Commit a validated room into the empty slot `id`, writing every
    /// mate it forms on both sides of the seam.
    fn place(&mut self, id: RoomId, room: Room, mates: &Vec<(PortId, RoomId, PortId)>)
        requires
            old(self).wf(),
            (id as int) < MAX_ROOMS,
            !old(self).present(id as int),
            pose_ok(room.pose),
            !old(self).box_blocked(room.kind, room.pose),
            old(self).mates_formed(room.kind, room.pose, None, mates@),
            forall|p: int| 0 <= p < PORTS ==> room.mates[p] is None,
        ensures
            final(self).wf(),
            final(self).placed(*old(self), id as int, room.kind, room.pose, room.anchor),
    {
        let ghost old_rooms = *self;
        let ghost kind = room.kind;
        let ghost pose = room.pose;
        let ghost anchor = room.anchor;
        let mut room = room;
        let mut k: usize = 0;
        while k < mates.len()
            invariant
                k <= mates.len(),
                (id as int) < MAX_ROOMS,
                old_rooms.wf(),
                !old_rooms.present(id as int),
                room.kind == kind,
                room.pose == pose,
                room.anchor == anchor,
                old_rooms.mates_formed(kind, pose, None, mates@),
                self.order@ == old_rooms.order@,
                forall|j: int| #[trigger] self.present(j) == old_rooms.present(j),
                forall|j: int|
                    old_rooms.present(j) ==> (#[trigger] self.room_at(j))->0.kind == old_rooms.room_at(
                        j,
                    )->0.kind && self.room_at(j)->0.pose == old_rooms.room_at(j)->0.pose
                        && self.room_at(j)->0.anchor == old_rooms.room_at(j)->0.anchor,
                forall|j: int, q: int|
                    old_rooms.present(j) && 0 <= q < PORTS ==> {
                        let now = #[trigger] self.room_at(j)->0.mates[q];
                        now == old_rooms.room_at(j)->0.mates[q] || (now matches Some(m) && m.0 == id
                            && old_rooms.forms_mate(kind, pose, None, (m.1, j as u8, q as u8)))
                    },
                forall|i: int|
                    0 <= i < k ==> {
                        let e = #[trigger] mates@[i];
                        self.room_at(e.1 as int)->0.mates[e.2 as int] matches Some(m) && m.0 == id
                            && old_rooms.forms_mate(kind, pose, None, (m.1, e.1, e.2))
                    },
                forall|p: int|
                    0 <= p < PORTS ==> match #[trigger] room.mates[p] {
                        Some(m) => old_rooms.forms_mate(kind, pose, None, (p as u8, m.0, m.1)),
                        None => true,
                    },
                forall|i: int| 0 <= i < k ==> (#[trigger] room.mates[mates@[i].0 as int]) is Some,
            decreases mates.len() - k,
        {
            let (mine, other, theirs) = mates[k];
            proof {
                assert(old_rooms.forms_mate(kind, pose, None, mates@[k as int]));
                Self::lemma_first_coinciding_range(
                    kind,
                    pose,
                    mine as int,
                    old_rooms.room_at(other as int)->0,
                    0,
                );
            }
            assert(self.present(other as int));
            let ghost prev = *self;
            let ghost prev_room = room;
            room.mates[mine as usize] = Some((other, theirs));
            let mut neighbour = self.slots[other as usize].unwrap();
            neighbour.mates[theirs as usize] = Some((id, mine));
            self.slots[other as usize] = Some(neighbour);
            proof {
                assert forall|j: int|
                    #![trigger self.room_at(j)]
                    self.room_at(j) == if j == other {
                        Some(neighbour)
                    } else {
                        prev.room_at(j)
                    } by {}
                assert forall|p: int|
                    0 <= p < PORTS implies room.mates[p] == if p == mine {
                        Some((other, theirs))
                    } else {
                        prev_room.mates[p]
                    } by {}
                assert forall|j: int| #[trigger] self.present(j) == old_rooms.present(j) by {
                    assert(prev.present(j) == old_rooms.present(j));
                }
                assert forall|i: int|
                    0 <= i < k + 1 implies {
                    let e = #[trigger] mates@[i];
                    self.room_at(e.1 as int)->0.mates[e.2 as int] matches Some(m) && m.0 == id
                        && old_rooms.forms_mate(kind, pose, None, (m.1, e.1, e.2))
                } by {
                    let e = mates@[i];
                    if i < k {
                        assert(old_rooms.forms_mate(kind, pose, None, e));
                        Self::lemma_first_coinciding_range(
                            kind,
                            pose,
                            e.0 as int,
                            old_rooms.room_at(e.1 as int)->0,
                            0,
                        );
                        let before = prev.room_at(e.1 as int)->0.mates[e.2 as int];
                        assert(before matches Some(m) && m.0 == id && old_rooms.forms_mate(
                            kind,
                            pose,
                            None,
                            (m.1, e.1, e.2),
                        ));
                        if e.1 == other && e.2 != theirs {
                            assert(neighbour.mates[e.2 as int] == before);
                        }
                    }
                }
            }
            k = k + 1;
        }
        proof {
            assert forall|p: int| 0 <= p < PORTS implies match #[trigger] room.mates[p] {
                Some(m) => old_rooms.forms_mate(kind, pose, None, (p as u8, m.0, m.1)),
                None => forall|o: u8, q: u8| !#[trigger] old_rooms.forms_mate(kind, pose, None, (p as u8, o, q)),
            } by {
                if room.mates[p] is None {
                    assert forall|o: u8, q: u8|
                        !#[trigger] old_rooms.forms_mate(kind, pose, None, (p as u8, o, q)) by {
                        if old_rooms.forms_mate(kind, pose, None, (p as u8, o, q)) {
                            assert(leads_into(
                                kind,
                                pose,
                                p,
                                old_rooms.room_at(o as int)->0.kind,
                                old_rooms.room_at(o as int)->0.pose,
                            ));
                            let i = choose|i: int|
                                0 <= i < mates.len() && (#[trigger] mates@[i]).0 == p && mates@[i].1
                                    == o;
                            assert(room.mates[mates@[i].0 as int] is Some);
                        }
                    }
                }
            }
        }
        let ghost prev = *self;
        self.slots[id as usize] = Some(room);
        self.order.push(id);
        proof {
            let new = *self;
            assert(new.room_at(id as int) == Some(room));
            assert(new.order@ == old_rooms.order@.push(id));
            assert(!old_rooms.box_blocked(kind, pose));
            assert forall|j: int|
                #![trigger new.room_at(j)]
                new.room_at(j) == if j == id {
                    Some(room)
                } else {
                    prev.room_at(j)
                } by {}
            assert forall|j: int, q: int|
                j != id && old_rooms.present(j) && 0 <= q < PORTS implies #[trigger] old_rooms.mate_after(
                kind,
                pose,
                id as int,
                j,
                q,
                new.room_at(j)->0.mates[q],
            ) by {
                assert(new.room_at(j) == self.slots@[j]);
                if exists|p: u8| #[trigger] old_rooms.forms_mate(kind, pose, None, (p, j as u8, q as u8)) {
                    let p = choose|p: u8| #[trigger] old_rooms.forms_mate(kind, pose, None, (p, j as u8, q as u8));
                    assert(leads_into(
                        kind,
                        pose,
                        p as int,
                        old_rooms.room_at(j)->0.kind,
                        old_rooms.room_at(j)->0.pose,
                    ));
                    let i = choose|i: int|
                        0 <= i < mates.len() && (#[trigger] mates@[i]).0 == p && mates@[i].1 == j;
                    assert(old_rooms.forms_mate(kind, pose, None, mates@[i]));
                    assert(mates@[i].2 == q);
                }
            }
            assert forall|a: int, b: int|
                a != b && new.room_at(a) is Some && new.room_at(b) is Some implies apart(
                #[trigger] new.room_at(a)->0,
                #[trigger] new.room_at(b)->0,
            ) by {
                if a == id {
                    assert(prev.present(b));
                    assert(old_rooms.present(b));
                    assert(apart(
                        Room { kind, pose, mates: old_rooms.room_at(b)->0.mates, anchor: None },
                        old_rooms.room_at(b)->0,
                    ));
                } else if b == id {
                    assert(prev.present(a));
                    assert(old_rooms.present(a));
                    assert(apart(
                        Room { kind, pose, mates: old_rooms.room_at(a)->0.mates, anchor: None },
                        old_rooms.room_at(a)->0,
                    ));
                } else {
                    assert(prev.present(a) && prev.present(b));
                    assert(old_rooms.present(a) && old_rooms.present(b));
                    assert(apart(old_rooms.room_at(a)->0, old_rooms.room_at(b)->0));
                    assert(new.room_at(a)->0.kind == old_rooms.room_at(a)->0.kind);
                    assert(new.room_at(a)->0.pose == old_rooms.room_at(a)->0.pose);
                    assert(new.room_at(b)->0.kind == old_rooms.room_at(b)->0.kind);
                    assert(new.room_at(b)->0.pose == old_rooms.room_at(b)->0.pose);
                }
            }
            assert forall|j: int, p: int|
                0 <= p < PORTS && new.room_at(j) is Some implies mate_ok(
                #[trigger] new.room_at(j)->0.mates[p],
            ) by {
                if j == id {
                    if let Some(m) = room.mates[p] {
                        assert(old_rooms.forms_mate(kind, pose, None, (p as u8, m.0, m.1)));
                        Self::lemma_first_coinciding_range(
                            kind,
                            pose,
                            p,
                            old_rooms.room_at(m.0 as int)->0,
                            0,
                        );
                    }
                } else {
                    assert(prev.present(j));
                    assert(old_rooms.room_at(j) is Some);
                    assert(mate_ok(old_rooms.room_at(j)->0.mates[p]));
                    let now = prev.room_at(j)->0.mates[p];
                    assert(now == old_rooms.room_at(j)->0.mates[p] || (now matches Some(m) && m.0
                        == id && old_rooms.forms_mate(kind, pose, None, (m.1, j as u8, p as u8))));
                }
            }
            assert forall|i: int, j: int|
                0 <= i < j < new.order@.len() implies new.order@[i] != new.order@[j] by {
                if j == new.order@.len() - 1 {
                    assert(old_rooms.room_at(old_rooms.order@[i] as int) is Some);
                }
            }
            assert forall|i: int|
                0 <= i < new.order@.len() implies #[trigger] new.room_at(new.order@[i] as int) is Some by {
                if i < old_rooms.order@.len() {
                    let x = old_rooms.order@[i] as int;
                    assert(old_rooms.room_at(x) is Some);
                    assert(prev.present(x));
                    assert(x != id);
                    assert(new.order@[i] == old_rooms.order@[i]);
                }
            }
            assert forall|j: int| #[trigger] new.room_at(j) is Some implies new.order@.contains(
                j as u8,
            ) by {
                if j == id {
                    assert(new.order@[new.order@.len() - 1] == id);
                } else {
                    assert(prev.present(j));
                    assert(old_rooms.room_at(j) is Some);
                    assert(old_rooms.order@.contains(j as u8));
                    let i = choose|i: int|
                        0 <= i < old_rooms.order@.len() && old_rooms.order@[i] == j as u8;
                    assert(new.order@[i] == j as u8);
                }
            }
            assert(new.attach_order() =~= old_rooms.attach_order().push(id));
            assert(old_rooms.present(CABIN as int));
            assert(prev.present(CABIN as int));
            assert(new.room_at(CABIN as int) is Some);
            assert(new.wf());
            assert forall|j: int| j != id implies #[trigger] new.present(j) == old_rooms.present(j) by {
                assert(prev.present(j) == old_rooms.present(j));
            }
            assert forall|j: int|
                j != id && old_rooms.present(j) implies (#[trigger] new.room_at(j))->0.kind
                == old_rooms.room_at(j)->0.kind && new.room_at(j)->0.pose == old_rooms.room_at(j)->0.pose
                && new.room_at(j)->0.anchor == old_rooms.room_at(j)->0.anchor by {
                assert(prev.room_at(j) == new.room_at(j));
            }
            assert(new.placed(old_rooms, id as int, kind, pose, room.anchor));
        }
    }
}


impl Rooms {
    /// A pose the mate rules hand out is clear of every placed box.
    proof fn lemma_mate_pose_clear(self, anchor: int, anchor_port: int, kind: RoomKind, port: int)
        ensures
            self.spec_mate_pose(anchor, anchor_port, kind, port) matches Ok(pose) ==> !self.box_blocked(
                kind,
                pose,
            ),
    {
    }

    /// The slot `free_from` names is empty, and no earlier one from
    /// `from` on is.
    proof fn lemma_free_from(self, from: int)
        requires
            0 <= from,
        ensures
            self.free_from(from) matches Some(i) ==> from <= i < MAX_ROOMS && !self.present(i)
                && forall|j: int| from <= j < i ==> #[trigger] self.present(j),
            self.free_from(from) is None ==> forall|j: int|
                from <= j < MAX_ROOMS ==> #[trigger] self.present(j),
        decreases MAX_ROOMS - from,
    {
        if from < MAX_ROOMS {
            self.lemma_free_from(from + 1);
        }
    }

    /// The first empty slot, if any.
    fn free_slot(&self) -> (r: Option<RoomId>)
        ensures
            match self.free_from(0) {
                Some(i) => r == Some(i as RoomId),
                None => r is None,
            },
            r matches Some(i) ==> (i as int) < MAX_ROOMS && !self.present(i as int),
    {
        proof {
            self.lemma_free_from(0);
        }
        let mut id: usize = 0;
        while id < MAX_ROOMS
            invariant
                id <= MAX_ROOMS,
                self.free_from(0) == self.free_from(id as int),
            decreases MAX_ROOMS - id,
        {
            if self.slots[id].is_none() {
                assert(!self.present(id as int));
                return Some(id as RoomId);
            }
            assert(self.present(id as int));
            id = id + 1;
        }
        None
    }

    /// Validate and commit an attach: four small integers in, a dense
    /// [`RoomId`] out. The whole request is checked — ports, kinds,
    /// pose, box, and every induced seam — before anything changes; the
    /// room takes the lowest free id.
    pub fn attach(&mut self, anchor: RoomId, anchor_port: PortId, kind: RoomKind, port: PortId) -> (r:
        Result<RoomId, Refusal>)
        requires
            old(self).wf(),
        ensures
            final(self).wf(),
            match old(self).spec_attach(anchor as int, anchor_port as int, kind, port as int) {
                Ok(pose) => r == Ok::<RoomId, Refusal>(old(self).free_from(0)->0 as RoomId)
                    && final(self).placed(
                    *old(self),
                    old(self).free_from(0)->0,
                    kind,
                    pose,
                    Some((anchor, anchor_port, port)),
                ),
                Err(e) => r == Err::<RoomId, Refusal>(e) && final(self)@ == old(self)@,
            },
    {
        let candidate = match self.mate_pose(anchor, anchor_port, kind, port) {
            Ok(c) => c,
            Err(e) => return Err(e),
        };
        let mates = match self.seams_close(&candidate, None) {
            Ok(m) => m,
            Err(e) => return Err(e),
        };
        let id = match self.free_slot() {
            Some(id) => id,
            None => return Err(Refusal::Full),
        };
        let mut room = candidate;
        room.anchor = Some((anchor, anchor_port, port));
        proof {
            self.lemma_mate_pose_clear(anchor as int, anchor_port as int, kind, port as int);
        }
        let ghost old_rooms = *self;
        self.place(id, room, &mates);
        proof {
            old_rooms.lemma_free_from(0);
            assert(old_rooms.free_from(0) == Some(id as int));
            assert(old_rooms.spec_attach(anchor as int, anchor_port as int, kind, port as int) == Ok::<
                Pose,
                Refusal,
            >(room.pose));
        }
        Ok(id)
    }

    /// Whether one attach request would validate, without writing
    /// anything.
    fn would_mate(&self, anchor: RoomId, anchor_port: PortId, kind: RoomKind, port: PortId) -> (r:
        Result<(), Refusal>)
        requires
            self.wf(),
        ensures
            match self.spec_validate(anchor as int, anchor_port as int, kind, port as int) {
                Ok(_) => r is Ok,
                Err(e) => r == Err::<(), Refusal>(e),
            },
    {
        let candidate = match self.mate_pose(anchor, anchor_port, kind, port) {
            Ok(c) => c,
            Err(e) => return Err(e),
        };
        match self.seams_close(&candidate, None) {
            Ok(_) => Ok(()),
            Err(e) => Err(e),
        }
    }

    /// Re-attach a room at a recorded mate, forcing its id — the save's
    /// replay path. The same validation runs; a document that lies about
    /// its own graph fails safe.
    pub fn replay(
        &mut self,
        id: RoomId,
        anchor: RoomId,
        anchor_port: PortId,
        kind: RoomKind,
        port: PortId,
    ) -> (r: Result<(), Refusal>)
        requires
            old(self).wf(),
        ensures
            final(self).wf(),
            (id as int) >= MAX_ROOMS || old(self).present(id as int) ==> r == Err::<(), Refusal>(
                Refusal::Full,
            ) && final(self)@ == old(self)@,
            (id as int) < MAX_ROOMS && !old(self).present(id as int) ==> match old(self).spec_validate(
                anchor as int,
                anchor_port as int,
                kind,
                port as int,
            ) {
                Ok(pose) => r is Ok && final(self).placed(
                    *old(self),
                    id as int,
                    kind,
                    pose,
                    Some((anchor, anchor_port, port)),
                ),
                Err(e) => r == Err::<(), Refusal>(e) && final(self)@ == old(self)@,
            },
    {
        if id as usize >= MAX_ROOMS || self.get(id).is_some() {
            return Err(Refusal::Full);
        }
        let candidate = match self.mate_pose(anchor, anchor_port, kind, port) {
            Ok(c) => c,
            Err(e) => return Err(e),
        };
        let mates = match self.seams_close(&candidate, None) {
            Ok(m) => m,
            Err(e) => return Err(e),
        };
        let mut room = candidate;
        room.anchor = Some((anchor, anchor_port, port));
        proof {
            self.lemma_mate_pose_clear(anchor as int, anchor_port as int, kind, port as int);
        }
        self.place(id, room, &mates);
        Ok(())
    }
}


/// Whether `res` is a refusal no deeper than `e`.
pub open spec fn refused_within(res: Result<Pose, Refusal>, e: Refusal) -> bool {
    match res {
        Err(f) => spec_reached(f) <= spec_reached(e),
        Ok(_) => false,
    }
}

/// How far into validation a refusal got. The spawn walk keeps the
/// deepest one it saw: "no space" is a truer answer than "no port" when
/// the walk tried a hundred slots that were never there.
fn reached(refusal: Refusal) -> (r: u8)
    ensures
        r as int == spec_reached(refusal),
{
    match refusal {
        Refusal::Absent => 0,
        Refusal::Kinds => 1,
        Refusal::Mated => 2,
        Refusal::Blocked => 3,
        Refusal::Aperture => 4,
        _ => 5,
    }
}

impl Rooms {
    /// Whether `a` is an anchor the spawn walk tries from `from`: `from`
    /// itself, then every attached room.
    pub open spec fn walk_anchor(self, from: RoomId, a: RoomId) -> bool {
        a == from || self.present(a as int)
    }

    /// Where anchor `a` stands in the walk: `from` first, then id order.
    pub open spec fn walk_rank(from: RoomId, a: RoomId) -> int {
        if a == from {
            0
        } else {
            a + 1
        }
    }

    /// Whether walk candidate `c` is tried before `d`: anchors in walk
    /// order, then the anchor's ports, then the new room's.
    pub open spec fn walk_before(from: RoomId, c: (RoomId, PortId, PortId), d: (RoomId, PortId, PortId)) -> bool {
        let rc = Self::walk_rank(from, c.0);
        let rd = Self::walk_rank(from, d.0);
        rc < rd || (rc == rd && (c.1 < d.1 || (c.1 == d.1 && c.2 < d.2)))
    }

    /// Whether `(anchor, anchor port, port)` is a pair the walk tries.
    pub open spec fn walk_candidate(self, from: RoomId, c: (RoomId, PortId, PortId)) -> bool {
        self.walk_anchor(from, c.0) && c.1 < PORTS && c.2 < PORTS
    }

    /// What candidate `c` validates to for a room of `kind`.
    pub open spec fn walk_try(self, kind: RoomKind, c: (RoomId, PortId, PortId)) -> Result<
        Pose,
        Refusal,
    > {
        self.spec_validate(c.0 as int, c.1 as int, kind, c.2 as int)
    }

    /// Whether some candidate of the walk validates.
    pub open spec fn walk_open(self, kind: RoomKind, from: RoomId) -> bool {
        exists|c: (RoomId, PortId, PortId)| self.walk_candidate(from, c) && #[trigger] self.walk_try(kind, c) is Ok
    }

    /// Whether `c` is the walk's answer: the first candidate that
    /// validates.
    pub open spec fn walk_first(self, kind: RoomKind, from: RoomId, c: (RoomId, PortId, PortId)) -> bool {
        &&& self.walk_candidate(from, c)
        &&& self.walk_try(kind, c) is Ok
        &&& forall|d: (RoomId, PortId, PortId)|
            self.walk_candidate(from, d) && Self::walk_before(from, d, c) ==> #[trigger] self.walk_try(
                kind,
                d,
            ) is Err
    }

    /// Whether `e` is the walk's refusal: no candidate got deeper, and
    /// some candidate got that far (or nothing did, and it is `Absent`).
    pub open spec fn walk_deepest(self, kind: RoomKind, from: RoomId, e: Refusal) -> bool {
        &&& forall|d: (RoomId, PortId, PortId)|
            self.walk_candidate(from, d) ==> refused_within(#[trigger] self.walk_try(kind, d), e)
        &&& e == Refusal::Absent || exists|d: (RoomId, PortId, PortId)|
            self.walk_candidate(from, d) && #[trigger] self.walk_try(kind, d) == Err::<Pose, Refusal>(e)
    }

    /// The walk over one anchor's port pairs: the first that validates,
    /// or every refusal folded into `deepest`.
    fn try_anchor(&self, kind: RoomKind, anchor: RoomId, deepest: &mut Refusal) -> (r: Option<(PortId, PortId)>)
        requires
            self.wf(),
        ensures
            r matches Some(c) ==> c.0 < PORTS && c.1 < PORTS && self.walk_try(kind, (anchor, c.0, c.1))
                is Ok && forall|ap: u8, p: u8|
                ap < PORTS && p < PORTS && (ap < c.0 || (ap == c.0 && p < c.1)) ==> #[trigger] self.walk_try(
                    kind,
                    (anchor, ap, p),
                ) is Err,
            r is None ==> forall|ap: u8, p: u8|
                ap < PORTS && p < PORTS ==> refused_within(#[trigger] self.walk_try(kind, (anchor, ap, p)), *final(deepest)),
            r is None ==> *final(deepest) == *old(deepest) || exists|ap: u8, p: u8|
                ap < PORTS && p < PORTS && #[trigger] self.walk_try(kind, (anchor, ap, p)) == Err::<
                    Pose,
                    Refusal,
                >(*final(deepest)),
            r is None ==> spec_reached(*old(deepest)) <= spec_reached(*final(deepest)),
    {
        let ghost start = *deepest;
        let mut ap: u8 = 0;
        while (ap as usize) < PORTS
            invariant
                ap <= PORTS,
                self.wf(),
                forall|a: u8, p: u8|
                    a < ap && p < PORTS ==> refused_within(#[trigger] self.walk_try(kind, (anchor, a, p)), *deepest),
                *deepest == start || exists|a: u8, p: u8|
                    a < PORTS && p < PORTS && #[trigger] self.walk_try(kind, (anchor, a, p)) == Err::<
                        Pose,
                        Refusal,
                    >(*deepest),
                spec_reached(start) <= spec_reached(*deepest),
            decreases PORTS - ap,
        {
            let mut p: u8 = 0;
            while (p as usize) < PORTS
                invariant
                    ap < PORTS,
                    p <= PORTS,
                    self.wf(),
                    forall|a: u8, q: u8|
                        (a < ap && q < PORTS) || (a == ap && q < p) ==> refused_within(#[trigger] self.walk_try(
                            kind,
                            (anchor, a, q),
                        ), *deepest),
                    *deepest == start || exists|a: u8, q: u8|
                        a < PORTS && q < PORTS && #[trigger] self.walk_try(kind, (anchor, a, q)) == Err::<
                            Pose,
                            Refusal,
                        >(*deepest),
                    spec_reached(start) <= spec_reached(*deepest),
                decreases PORTS - p,
            {
                match self.would_mate(anchor, ap, kind, p) {
                    Ok(()) => {
                        return Some((ap, p));
                    },
                    Err(why) => {
                        assert(self.walk_try(kind, (anchor, ap, p)) == Err::<Pose, Refusal>(why));
                        if reached(why) > reached(*deepest) {
                            *deepest = why;
                        }
                    },
                }
                p = p + 1;
            }
            ap = ap + 1;
        }
        None
    }
}


impl Rooms {
    /// The spawn contract's walk: candidate port pairs in a fixed
    /// deterministic order, the first that validates.
    ///
    /// The order is the anchor's own ports (doors by wall index, then
    /// the ladder, then the hatch), then outward through the graph in id
    /// order, each against the new room's ports in the same order. Slots
    /// a kind does not declare are tried and refused `Absent`. When
    /// nothing validates, the deepest refusal the walk reached is the
    /// answer.
    fn berth(&self, kind: RoomKind, from: RoomId) -> (r: Result<(RoomId, PortId, PortId), Refusal>)
        requires
            self.wf(),
        ensures
            r matches Ok(c) ==> self.walk_first(kind, from, c),
            r matches Err(e) ==> !self.walk_open(kind, from) && self.walk_deepest(kind, from, e),
    {
        let mut deepest = Refusal::Absent;
        let mut ai: usize = 0;
        while ai <= MAX_ROOMS
            invariant
                ai <= MAX_ROOMS + 1,
                self.wf(),
                forall|d: (RoomId, PortId, PortId)|
                    self.walk_candidate(from, d) && Self::walk_rank(from, d.0) < ai ==> refused_within(
                        #[trigger] self.walk_try(kind, d),
                        deepest,
                    ),
                deepest == Refusal::Absent || exists|d: (RoomId, PortId, PortId)|
                    self.walk_candidate(from, d) && #[trigger] self.walk_try(kind, d) == Err::<
                        Pose,
                        Refusal,
                    >(deepest),
            decreases MAX_ROOMS + 1 - ai,
        {
            let anchor: RoomId = if ai == 0 {
                from
            } else {
                (ai - 1) as RoomId
            };
            let skip = ai > 0 && (anchor == from || self.get(anchor).is_none());
            if !skip {
                let ghost before = deepest;
                match self.try_anchor(kind, anchor, &mut deepest) {
                    Some((ap, p)) => {
                        proof {
                            assert forall|d: (RoomId, PortId, PortId)|
                                self.walk_candidate(from, d) && Self::walk_before(
                                    from,
                                    d,
                                    (anchor, ap, p),
                                ) implies #[trigger] self.walk_try(kind, d) is Err by {
                                if d.0 != anchor {
                                    assert(refused_within(self.walk_try(kind, d), before));
                                } else {
                                    assert(self.walk_try(kind, (anchor, d.1, d.2)) is Err);
                                }
                            }
                        }
                        return Ok((anchor, ap, p));
                    },
                    None => {
                        proof {
                            assert forall|d: (RoomId, PortId, PortId)|
                                self.walk_candidate(from, d) && Self::walk_rank(from, d.0) < ai
                                    + 1 implies refused_within(
                                #[trigger] self.walk_try(kind, d),
                                deepest,
                            ) by {
                                if d.0 == anchor {
                                    assert(refused_within(self.walk_try(kind, (anchor, d.1, d.2)), deepest));
                                } else {
                                    assert(refused_within(self.walk_try(kind, d), before));
                                }
                            }
                            if deepest != before {
                                let (a, b) = choose|a: u8, b: u8|
                                    a < PORTS && b < PORTS && #[trigger] self.walk_try(kind, (anchor, a, b))
                                        == Err::<Pose, Refusal>(deepest);
                                assert(self.walk_candidate(from, (anchor, a, b)));
                            }
                        }
                    },
                }
            } else {
                proof {
                    assert forall|d: (RoomId, PortId, PortId)|
                        self.walk_candidate(from, d) && Self::walk_rank(from, d.0) < ai + 1 implies refused_within(
                        #[trigger] self.walk_try(kind, d),
                        deepest,
                    ) by {
                        if Self::walk_rank(from, d.0) == ai {
                            assert(d.0 == anchor);
                            assert(false);
                        }
                    }
                }
            }
            ai = ai + 1;
        }
        proof {
            assert forall|c: (RoomId, PortId, PortId)|
                self.walk_candidate(from, c) implies !(#[trigger] self.walk_try(kind, c) is Ok) by {
                assert(Self::walk_rank(from, c.0) <= MAX_ROOMS);
                assert(refused_within(self.walk_try(kind, c), deepest));
            }
        }
        Err(deepest)
    }

    /// Whether `c` lands the new room as the walk's first validating
    /// candidate from `from`, committed in slot `id`.
    pub open spec fn walked(
        self,
        old: Rooms,
        id: int,
        kind: RoomKind,
        from: RoomId,
        c: (RoomId, PortId, PortId),
    ) -> bool {
        &&& old.walk_first(kind, from, c)
        &&& self.placed(old, id, kind, old.walk_try(kind, c)->Ok_0, Some(c))
    }

    /// Attach a room the game itself asked for, wherever it fits: the
    /// spawn contract's walk, committed.
    pub fn spawn(&mut self, kind: RoomKind, from: RoomId) -> (r: Result<RoomId, Refusal>)
        requires
            old(self).wf(),
        ensures
            final(self).wf(),
            old(self).spec_count() >= MAX_ROOMS ==> r == Err::<RoomId, Refusal>(Refusal::Full)
                && final(self)@ == old(self)@,
            old(self).spec_count() < MAX_ROOMS ==> match r {
                Ok(id) => id as int == old(self).free_from(0)->0 && exists|c: (RoomId, PortId, PortId)|
                    #[trigger] final(self).walked(*old(self), id as int, kind, from, c),
                Err(e) => !old(self).walk_open(kind, from) && old(self).walk_deepest(kind, from, e)
                    && final(self)@ == old(self)@,
            },
    {
        if self.count() >= MAX_ROOMS {
            return Err(Refusal::Full);
        }
        let (anchor, anchor_port, port) = match self.berth(kind, from) {
            Ok(c) => c,
            Err(e) => return Err(e),
        };
        proof {
            self.lemma_free_exists(0);
        }
        let ghost old_rooms = *self;
        let r = self.attach(anchor, anchor_port, kind, port);
        proof {
            assert(final(self).walked(old_rooms, r->Ok_0 as int, kind, from, (anchor, anchor_port, port)));
        }
        r
    }

    /// With fewer than a full budget of rooms, some slot from `from` on is
    /// free.
    proof fn lemma_free_exists(self, from: int)
        requires
            0 <= from <= MAX_ROOMS,
            self.spec_count() - self.count_upto(from) < MAX_ROOMS - from,
        ensures
            self.free_from(from) is Some,
        decreases MAX_ROOMS - from,
    {
        if from < MAX_ROOMS && self.present(from) {
            assert(self.count_upto(from + 1) == self.count_upto(from) + 1);
            self.lemma_free_exists(from + 1);
        }
    }

    /// How a re-seat of slot `id` from `start` left `self`, given `old`:
    /// the walk's first berth taken, or the walk's refusal and nothing
    /// changed.
    pub open spec fn reseated(
        self,
        old: Rooms,
        id: RoomId,
        kind: RoomKind,
        start: RoomId,
        r: Result<(), Refusal>,
    ) -> bool {
        match r {
            Ok(()) => exists|c: (RoomId, PortId, PortId)| #[trigger] self.walked(old, id as int, kind, start, c),
            Err(e) => !old.walk_open(kind, start) && old.walk_deepest(kind, start, e) && self@ == old@,
        }
    }

    /// Re-seat a room whose recorded mate no longer exists, keeping its
    /// id: the walk from `from` (or from the cabin, when `from` is gone)
    /// finds the berth, and the room is replayed there.
    pub fn reseat(&mut self, id: RoomId, kind: RoomKind, from: RoomId) -> (r: Result<(), Refusal>)
        requires
            old(self).wf(),
        ensures
            final(self).wf(),
            (id as int) >= MAX_ROOMS || old(self).present(id as int) ==> r == Err::<(), Refusal>(
                Refusal::Full,
            ) && final(self)@ == old(self)@,
            (id as int) < MAX_ROOMS && !old(self).present(id as int) ==> final(self).reseated(
                *old(self),
                id,
                kind,
                if old(self).present(from as int) {
                    from
                } else {
                    CABIN
                },
                r,
            ),
    {
        if id as usize >= MAX_ROOMS || self.get(id).is_some() {
            return Err(Refusal::Full);
        }
        let from = if self.get(from).is_some() {
            from
        } else {
            CABIN
        };
        let (anchor, anchor_port, port) = match self.berth(kind, from) {
            Ok(c) => c,
            Err(e) => return Err(e),
        };
        let ghost old_rooms = *self;
        let r = self.replay(id, anchor, anchor_port, kind, port);
        proof {
            assert(final(self).walked(old_rooms, id as int, kind, from, (anchor, anchor_port, port)));
            assert(final(self).reseated(old_rooms, id, kind, from, r));
        }
        r
    }
}


/// The test an attach-order entry passes to stay when room `id` leaves.
pub open spec fn other_than(id: RoomId) -> spec_fn(RoomId) -> bool {
    |x: RoomId| x != id
}

/// `order` with every `id` taken out, the rest in their order.
fn without(order: &Vec<RoomId>, id: RoomId) -> (r: Vec<RoomId>)
    ensures
        r@ == order@.filter(other_than(id)),
        forall|k: int| 0 <= k < r.len() ==> #[trigger] r@[k] != id && order@.contains(r@[k]),
        forall|m: int| 0 <= m < order.len() && #[trigger] order@[m] != id ==> r@.contains(order@[m]),
        (forall|i: int, j: int| 0 <= i < j < order.len() ==> order@[i] != order@[j]) ==> (forall|
            i: int,
            j: int,
        | 0 <= i < j < r.len() ==> r@[i] != r@[j]),
{
    let ghost keep = other_than(id);
    let mut out: Vec<RoomId> = Vec::new();
    let mut i: usize = 0;
    while i < order.len()
        invariant
            i <= order.len(),
            keep == other_than(id),
            out@ == order@.take(i as int).filter(keep),
            forall|k: int|
                0 <= k < out.len() ==> exists|m: int| 0 <= m < i && order@[m] == #[trigger] out@[k],
            forall|k: int| 0 <= k < out.len() ==> #[trigger] out@[k] != id,
            forall|m: int| 0 <= m < i && #[trigger] order@[m] != id ==> out@.contains(order@[m]),
            (forall|a: int, b: int| 0 <= a < b < order.len() ==> order@[a] != order@[b]) ==> (forall|
                a: int,
                b: int,
            | 0 <= a < b < out.len() ==> out@[a] != out@[b]),
        decreases order.len() - i,
    {
        let x = order[i];
        let ghost before = out@;
        proof {
            reveal(Seq::filter);
            assert(order@.take(i + 1).drop_last() =~= order@.take(i as int));
            assert(order@.take(i + 1).last() == x);
        }
        if x != id {
            out.push(x);
            proof {
                assert forall|k: int| 0 <= k < before.len() implies out@[k] == before[k] by {}
                assert(out@[out.len() - 1] == x);
                if forall|a: int, b: int| 0 <= a < b < order.len() ==> order@[a] != order@[b] {
                    assert forall|a: int, b: int| 0 <= a < b < out.len() implies out@[a] != out@[b] by {
                        if b == out.len() - 1 {
                            let m = choose|m: int| 0 <= m < i && order@[m] == #[trigger] out@[a];
                            assert(order@[m] != order@[i as int]);
                        }
                    }
                }
                assert forall|m: int| 0 <= m < i + 1 && #[trigger] order@[m] != id implies out@.contains(
                    order@[m],
                ) by {
                    if m == i {
                        assert(out@[out.len() - 1] == order@[m]);
                    } else {
                        assert(before.contains(order@[m]));
                        let k = choose|k: int| 0 <= k < before.len() && before[k] == order@[m];
                        assert(out@[k] == order@[m]);
                    }
                }
                assert forall|k: int|
                    0 <= k < out.len() implies exists|m: int| 0 <= m < i + 1 && order@[m] == #[trigger] out@[k] by {
                    if k == out.len() - 1 {
                        assert(order@[i as int] == out@[k]);
                    } else {
                        assert(out@[k] == before[k]);
                    }
                }
            }
        }
        i = i + 1;
    }
    proof {
        assert(order@.take(order.len() as int) =~= order@);
        assert forall|k: int| 0 <= k < out.len() implies #[trigger] out@[k] != id && order@.contains(out@[k]) by {
            let m = choose|m: int| 0 <= m < i && order@[m] == #[trigger] out@[k];
        }
    }
    out
}

impl Rooms {
    /// Whether room `id` names port `q` of room `j` as a mate.
    pub open spec fn names_mate(self, id: int, j: int, q: int) -> bool {
        exists|p: int| 0 <= p < PORTS && #[trigger] self.room_at(id)->0.mates[p] == Some((j as RoomId, q as PortId))
    }

    /// How `self` stands after room `id` was cut loose from `old`: the
    /// slot is free, every port the room named as a mate is free again,
    /// nothing else moved, and the attach order lost `id`.
    pub open spec fn detached(self, old: Rooms, id: int) -> bool {
        &&& !self.present(id)
        &&& forall|j: int| j != id ==> #[trigger] self.present(j) == old.present(j)
        &&& forall|j: int|
            j != id && old.present(j) ==> (#[trigger] self.room_at(j))->0.kind == old.room_at(j)->0.kind
                && self.room_at(j)->0.pose == old.room_at(j)->0.pose && self.room_at(j)->0.anchor
                == old.room_at(j)->0.anchor
        &&& forall|j: int, q: int|
            j != id && old.present(j) && 0 <= q < PORTS ==> #[trigger] self.room_at(j)->0.mates[q] == if old.names_mate(
                id,
                j,
                q,
            ) {
                None
            } else {
                old.room_at(j)->0.mates[q]
            }
        &&& self.attach_order() == old.attach_order().filter(other_than(id as RoomId))
    }

    /// Cut a room loose. The gates are the caller's; this is the graph
    /// surgery, and the id is freed for reuse the moment it is done.
    pub fn detach(&mut self, id: RoomId) -> (r: Result<RoomKind, Refusal>)
        requires
            old(self).wf(),
        ensures
            final(self).wf(),
            id == CABIN ==> r == Err::<RoomKind, Refusal>(Refusal::Root) && final(self)@ == old(self)@,
            id != CABIN && !old(self).present(id as int) ==> r == Err::<RoomKind, Refusal>(Refusal::Absent)
                && final(self)@ == old(self)@,
            id != CABIN && old(self).present(id as int) ==> r == Ok::<RoomKind, Refusal>(
                old(self).room_at(id as int)->0.kind,
            ) && final(self).detached(*old(self), id as int),
    {
        if id == CABIN {
            return Err(Refusal::Root);
        }
        let room = match self.get(id) {
            Some(room) => *room,
            None => return Err(Refusal::Absent),
        };
        let ghost old_rooms = *self;
        let mut p: usize = 0;
        while p < PORTS
            invariant
                p <= PORTS,
                id != CABIN,
                (id as int) < MAX_ROOMS,
                old_rooms.wf(),
                old_rooms.room_at(id as int) == Some(room),
                self.order@ == old_rooms.order@,
                forall|j: int| #[trigger] self.present(j) == old_rooms.present(j),
                forall|j: int|
                    old_rooms.present(j) ==> (#[trigger] self.room_at(j))->0.kind == old_rooms.room_at(
                        j,
                    )->0.kind && self.room_at(j)->0.pose == old_rooms.room_at(j)->0.pose
                        && self.room_at(j)->0.anchor == old_rooms.room_at(j)->0.anchor,
                forall|j: int, q: int|
                    j != id && old_rooms.present(j) && 0 <= q < PORTS ==> #[trigger] self.room_at(j)->0.mates[q]
                        == if exists|pp: int| 0 <= pp < p && #[trigger] room.mates[pp] == Some((j as RoomId, q as PortId)) {
                        None
                    } else {
                        old_rooms.room_at(j)->0.mates[q]
                    },
            decreases PORTS - p,
        {
            proof {
                old_rooms.lemma_placed(id as int);
                assert(mate_ok(old_rooms.room_at(id as int)->0.mates[p as int]));
            }
            if let Some(mate) = room.mates[p] {
                let ghost prev = *self;
                if let Some(other) = self.slots[mate.0 as usize] {
                    let mut other = other;
                    other.mates[mate.1 as usize] = None;
                    self.slots[mate.0 as usize] = Some(other);
                    proof {
                        assert forall|j: int|
                            #![trigger self.room_at(j)]
                            self.room_at(j) == if j == mate.0 {
                                Some(other)
                            } else {
                                prev.room_at(j)
                            } by {}
                        assert forall|j: int| #[trigger] self.present(j) == old_rooms.present(j) by {
                            assert(prev.present(j) == old_rooms.present(j));
                        }
                        assert forall|j: int|
                            old_rooms.present(j) implies (#[trigger] self.room_at(j))->0.kind
                            == old_rooms.room_at(j)->0.kind && self.room_at(j)->0.pose
                            == old_rooms.room_at(j)->0.pose && self.room_at(j)->0.anchor
                            == old_rooms.room_at(j)->0.anchor by {
                            assert(prev.present(j));
                        }
                        assert forall|j: int, q: int|
                            j != id && old_rooms.present(j) && 0 <= q < PORTS implies #[trigger] self.room_at(
                                j,
                            )->0.mates[q] == if exists|pp: int|
                                0 <= pp < p + 1 && #[trigger] room.mates[pp] == Some((j as RoomId, q as PortId)) {
                                None
                            } else {
                                old_rooms.room_at(j)->0.mates[q]
                            } by {
                            if j == mate.0 && q == mate.1 {
                                assert(room.mates[p as int] == Some((j as RoomId, q as PortId)));
                            } else {
                                assert(prev.room_at(j)->0.mates[q] == self.room_at(j)->0.mates[q]);
                                if exists|pp: int|
                                    0 <= pp < p + 1 && #[trigger] room.mates[pp] == Some((j as RoomId, q as PortId)) {
                                    let pp = choose|pp: int|
                                        0 <= pp < p + 1 && #[trigger] room.mates[pp] == Some((j as RoomId, q as PortId));
                                    assert(pp != p);
                                }
                            }
                        }
                    }
                } else {
                    proof {
                        assert forall|j: int, q: int|
                            j != id && old_rooms.present(j) && 0 <= q < PORTS implies #[trigger] self.room_at(
                                j,
                            )->0.mates[q] == if exists|pp: int|
                                0 <= pp < p + 1 && #[trigger] room.mates[pp] == Some((j as RoomId, q as PortId)) {
                                None
                            } else {
                                old_rooms.room_at(j)->0.mates[q]
                            } by {
                            if exists|pp: int|
                                0 <= pp < p + 1 && #[trigger] room.mates[pp] == Some((j as RoomId, q as PortId)) {
                                let pp = choose|pp: int|
                                    0 <= pp < p + 1 && #[trigger] room.mates[pp] == Some((j as RoomId, q as PortId));
                                if pp == p {
                                    assert(j == mate.0);
                                    assert(!self.present(j));
                                }
                            }
                        }
                    }
                }
            } else {
                proof {
                    assert forall|j: int, q: int|
                        j != id && old_rooms.present(j) && 0 <= q < PORTS implies #[trigger] self.room_at(
                            j,
                        )->0.mates[q] == if exists|pp: int|
                            0 <= pp < p + 1 && #[trigger] room.mates[pp] == Some((j as RoomId, q as PortId)) {
                            None
                        } else {
                            old_rooms.room_at(j)->0.mates[q]
                        } by {
                        if exists|pp: int|
                            0 <= pp < p + 1 && #[trigger] room.mates[pp] == Some((j as RoomId, q as PortId)) {
                            let pp = choose|pp: int|
                                0 <= pp < p + 1 && #[trigger] room.mates[pp] == Some((j as RoomId, q as PortId));
                            assert(pp != p);
                        }
                    }
                }
            }
            p = p + 1;
        }
        let ghost mid = *self;
        self.slots[id as usize] = None;
        let order = without(&self.order, id);
        self.order = order;
        proof {
            let new = *self;
            assert forall|j: int|
                #![trigger new.room_at(j)]
                new.room_at(j) == if j == id {
                    None
                } else {
                    mid.room_at(j)
                } by {}
            assert forall|j: int, q: int|
                j != id && old_rooms.present(j) && 0 <= q < PORTS implies #[trigger] new.room_at(j)->0.mates[q]
                == if old_rooms.names_mate(id as int, j, q) {
                None
            } else {
                old_rooms.room_at(j)->0.mates[q]
            } by {
                assert(mid.room_at(j) == new.room_at(j));
                if old_rooms.names_mate(id as int, j, q) {
                    let pp = choose|pp: int|
                        0 <= pp < PORTS && #[trigger] old_rooms.room_at(id as int)->0.mates[pp] == Some(
                            (j as RoomId, q as PortId),
                        );
                    assert(room.mates[pp] == Some((j as RoomId, q as PortId)));
                }
            }
            assert forall|j: int| j != id implies #[trigger] new.present(j) == old_rooms.present(j) by {
                assert(mid.present(j) == old_rooms.present(j));
            }
            assert forall|j: int|
                j != id && old_rooms.present(j) implies (#[trigger] new.room_at(j))->0.kind
                == old_rooms.room_at(j)->0.kind && new.room_at(j)->0.pose == old_rooms.room_at(j)->0.pose
                && new.room_at(j)->0.anchor == old_rooms.room_at(j)->0.anchor by {
                assert(mid.room_at(j) == new.room_at(j));
            }
            assert(new.detached(old_rooms, id as int));
            // the invariant
            assert(old_rooms.present(CABIN as int));
            assert(mid.present(CABIN as int));
            assert(new.room_at(CABIN as int) is Some);
            assert forall|j: int| #[trigger] new.room_at(j) is Some implies pose_ok(new.room_at(j)->0.pose) by {
                assert(mid.present(j));
                assert(old_rooms.present(j));
                assert(pose_ok(old_rooms.room_at(j)->0.pose));
            }
            assert forall|a: int, b: int|
                a != b && new.room_at(a) is Some && new.room_at(b) is Some implies apart(
                #[trigger] new.room_at(a)->0,
                #[trigger] new.room_at(b)->0,
            ) by {
                assert(mid.present(a) && mid.present(b));
                assert(old_rooms.present(a) && old_rooms.present(b));
                assert(apart(old_rooms.room_at(a)->0, old_rooms.room_at(b)->0));
            }
            assert forall|j: int, q: int|
                0 <= q < PORTS && new.room_at(j) is Some implies mate_ok(
                #[trigger] new.room_at(j)->0.mates[q],
            ) by {
                assert(mid.present(j));
                assert(old_rooms.room_at(j) is Some);
                assert(mate_ok(old_rooms.room_at(j)->0.mates[q]));
            }
            assert forall|i: int|
                0 <= i < new.order@.len() implies #[trigger] new.room_at(new.order@[i] as int) is Some by {
                let x = new.order@[i];
                assert(x != id);
                assert(old_rooms.order@.contains(x));
                let m = choose|m: int| 0 <= m < old_rooms.order@.len() && old_rooms.order@[m] == x;
                assert(old_rooms.room_at(old_rooms.order@[m] as int) is Some);
                assert(mid.present(x as int));
            }
            assert forall|j: int| #[trigger] new.room_at(j) is Some implies new.order@.contains(j as u8) by {
                assert(j != id);
                assert(mid.present(j));
                assert(old_rooms.room_at(j) is Some);
                assert(old_rooms.order@.contains(j as u8));
                let m = choose|m: int| 0 <= m < old_rooms.order@.len() && old_rooms.order@[m] == j as u8;
                assert(old_rooms.order@[m] != id);
            }
            assert(new.wf());
        }
        Ok(room.kind)
    }
}


/// Whether a mate entry leads to room `b`.
pub open spec fn mate_to(m: Option<(RoomId, PortId)>, b: int) -> bool {
    match m {
        Some(e) => e.0 == b,
        None => false,
    }
}

/// How many entries of `s` are `false`.
spec fn count_false(s: Seq<bool>) -> nat
    decreases s.len(),
{
    if s.len() == 0 {
        0
    } else {
        count_false(s.drop_last()) + if s.last() {
            0nat
        } else {
            1nat
        }
    }
}

/// Marking one more entry seen leaves one fewer unseen.
proof fn lemma_count_false_update(s: Seq<bool>, k: int)
    requires
        0 <= k < s.len(),
        !s[k],
    ensures
        count_false(s.update(k, true)) + 1 == count_false(s),
    decreases s.len(),
{
    if k == s.len() - 1 {
        assert(s.update(k, true).drop_last() =~= s.drop_last());
    } else {
        lemma_count_false_update(s.drop_last(), k);
        assert(s.update(k, true).drop_last() =~= s.drop_last().update(k, true));
    }
}

impl Rooms {
    /// Whether the walk from the cabin may start: the cabin is attached
    /// and is not the room walked around.
    pub open spec fn reach_start(self, without: RoomId) -> bool {
        without != CABIN && self.present(CABIN as int)
    }

    /// Whether one step leads from attached room `a` to room `b` through
    /// a mate, without entering `without`.
    pub open spec fn reach_step(self, without: RoomId, a: int, b: int) -> bool {
        &&& self.present(a)
        &&& b != without
        &&& exists|p: int| 0 <= p < PORTS && mate_to(#[trigger] self.room_at(a)->0.mates[p], b)
    }

    /// Whether room `b` is reached from the cabin in at most `n` steps,
    /// never passing through `without`.
    pub open spec fn reach_in(self, without: RoomId, n: nat, b: int) -> bool
        decreases n,
    {
        if n == 0 {
            b == CABIN && self.reach_start(without)
        } else {
            self.reach_in(without, (n - 1) as nat, b) || exists|a: int|
                0 <= a < MAX_ROOMS && self.reach_in(without, (n - 1) as nat, a) && #[trigger] self.reach_step(
                    without,
                    a,
                    b,
                )
        }
    }

    /// Whether room `b` is reachable from the cabin without passing
    /// through `without`.
    pub open spec fn reaches(self, without: RoomId, b: int) -> bool {
        exists|n: nat| #[trigger] self.reach_in(without, n, b)
    }

    /// Nothing is reached when the walk cannot start.
    proof fn lemma_no_start(self, without: RoomId, n: nat, b: int)
        requires
            !self.reach_start(without),
        ensures
            !self.reach_in(without, n, b),
        decreases n,
    {
        if n > 0 {
            let m = (n - 1) as nat;
            self.lemma_no_start(without, m, b);
            if self.reach_in(without, n, b) {
                let a = choose|a: int|
                    0 <= a < MAX_ROOMS && self.reach_in(without, m, a) && #[trigger] self.reach_step(
                        without,
                        a,
                        b,
                    );
                self.lemma_no_start(without, m, a);
            }
        }
    }

    /// A set of rooms that holds the start and is closed under steps
    /// holds everything reached.
    proof fn lemma_closed_holds(self, without: RoomId, seen: Seq<bool>, n: nat, b: int)
        requires
            seen.len() == MAX_ROOMS,
            self.reach_start(without) ==> seen[CABIN as int],
            forall|a: int, c: int|
                0 <= a < MAX_ROOMS && seen[a] && 0 <= c < MAX_ROOMS && #[trigger] self.reach_step(
                    without,
                    a,
                    c,
                ) ==> seen[c],
            self.reach_in(without, n, b),
            0 <= b < MAX_ROOMS,
        ensures
            seen[b],
        decreases n,
    {
        if n > 0 {
            if self.reach_in(without, (n - 1) as nat, b) {
                self.lemma_closed_holds(without, seen, (n - 1) as nat, b);
            } else {
                let a = choose|a: int|
                    0 <= a < MAX_ROOMS && self.reach_in(without, (n - 1) as nat, a) && #[trigger] self.reach_step(
                        without,
                        a,
                        b,
                    );
                self.lemma_closed_holds(without, seen, (n - 1) as nat, a);
            }
        }
    }

    /// Reaching in `n` steps is reaching in any more.
    proof fn lemma_reach_grows(self, without: RoomId, n: nat, m: nat, b: int)
        requires
            n <= m,
            self.reach_in(without, n, b),
        ensures
            self.reach_in(without, m, b),
        decreases m,
    {
        if n < m {
            self.lemma_reach_grows(without, n, (m - 1) as nat, b);
        }
    }

    /// Every room reachable from the cabin without passing through
    /// `without` — the far side of the gangway law's two gates.
    pub fn reachable(&self, without: RoomId) -> (r: [bool; MAX_ROOMS])
        requires
            self.wf(),
        ensures
            forall|b: int| 0 <= b < MAX_ROOMS ==> #[trigger] r@[b] == self.reaches(without, b),
    {
        let mut seen: [bool; MAX_ROOMS] = [false; MAX_ROOMS];
        if without == CABIN || self.get(CABIN).is_none() {
            proof {
                assert forall|b: int| 0 <= b < MAX_ROOMS implies #[trigger] seen@[b] == self.reaches(without, b) by {
                    if self.reaches(without, b) {
                        let n = choose|n: nat| #[trigger] self.reach_in(without, n, b);
                        self.lemma_no_start(without, n, b);
                    }
                }
            }
            return seen;
        }
        seen[CABIN as usize] = true;
        let ghost mut depth: Seq<nat> = Seq::new(MAX_ROOMS as nat, |i: int| 0nat);
        let mut frontier: Vec<RoomId> = Vec::new();
        frontier.push(CABIN);
        assert(self.reach_in(without, 0, CABIN as int));
        assert(frontier@[0] == CABIN);
        assert forall|a: int| 0 <= a < MAX_ROOMS && seen@[a] implies a == CABIN by {}
        while frontier.len() > 0
            invariant
                self.wf(),
                self.reach_start(without),
                seen@.len() == MAX_ROOMS,
                depth.len() == MAX_ROOMS,
                seen@[CABIN as int],
                forall|k: int| 0 <= k < MAX_ROOMS && #[trigger] seen@[k] ==> self.reach_in(without, depth[k], k),
                forall|i: int| 0 <= i < frontier.len() ==> (#[trigger] frontier@[i] as int) < MAX_ROOMS && seen@[frontier@[i] as int],
                forall|a: int, c: int|
                    0 <= a < MAX_ROOMS && seen@[a] && !frontier@.contains(a as RoomId) && 0 <= c < MAX_ROOMS
                        && #[trigger] self.reach_step(without, a, c) ==> seen@[c],
            decreases 2 * count_false(seen@) + frontier.len(),
        {
            let ghost measure = 2 * count_false(seen@) + frontier.len();
            let ghost before = frontier@;
            let id = frontier.pop().unwrap();
            assert(before == frontier@.push(id));
            match self.get(id) {
                None => {
                    proof {
                        assert forall|a: int, c: int|
                            0 <= a < MAX_ROOMS && seen@[a] && !frontier@.contains(a as RoomId) && 0 <= c < MAX_ROOMS
                                && #[trigger] self.reach_step(without, a, c) implies seen@[c] by {
                            if a != id {
                                if before.contains(a as RoomId) {
                                    let i = choose|i: int| 0 <= i < before.len() && before[i] == a as RoomId;
                                    assert(i < frontier.len());
                                    assert(frontier@.contains(a as RoomId));
                                }
                            }
                        }
                    }
                },
                Some(room) => {
                    let room = *room;
                    proof {
                        self.lemma_placed(id as int);
                        assert forall|a: int, c: int|
                            0 <= a < MAX_ROOMS && a != id && seen@[a] && !frontier@.contains(a as RoomId) && 0 <= c
                                < MAX_ROOMS && #[trigger] self.reach_step(without, a, c) implies seen@[c] by {
                            if before.contains(a as RoomId) {
                                let i = choose|i: int| 0 <= i < before.len() && before[i] == a as RoomId;
                                assert(i < frontier.len());
                                assert(frontier@[i] == a as RoomId);
                            }
                        }
                    }
                    let mut p: usize = 0;
                    while p < PORTS
                        invariant
                            p <= PORTS,
                            self.wf(),
                            self.reach_start(without),
                            self.room_at(id as int) == Some(room),
                            (id as int) < MAX_ROOMS,
                            seen@.len() == MAX_ROOMS,
                            depth.len() == MAX_ROOMS,
                            seen@[CABIN as int],
                            seen@[id as int],
                            2 * count_false(seen@) + frontier.len() < measure,
                            forall|k: int| 0 <= k < MAX_ROOMS && #[trigger] seen@[k] ==> self.reach_in(without, depth[k], k),
                            forall|i: int| 0 <= i < frontier.len() ==> (#[trigger] frontier@[i] as int) < MAX_ROOMS && seen@[frontier@[i] as int],
                            forall|a: int, c: int|
                                0 <= a < MAX_ROOMS && a != id && seen@[a] && !frontier@.contains(a as RoomId) && 0 <= c < MAX_ROOMS
                                    && #[trigger] self.reach_step(without, a, c) ==> seen@[c],
                            forall|pp: int| 0 <= pp < p ==> match #[trigger] room.mates[pp] {
                                Some(m) => m.0 == without || seen@[m.0 as int],
                                None => true,
                            },
                        decreases PORTS - p,
                    {
                        proof {
                            assert(mate_ok(self.room_at(id as int)->0.mates[p as int]));
                        }
                        if let Some(mate) = room.mates[p] {
                            if mate.0 != without && !seen[mate.0 as usize] {
                                let ghost old_seen = seen@;
                                let ghost old_front = frontier@;
                                proof {
                                    lemma_count_false_update(seen@, mate.0 as int);
                                    assert(self.reach_step(without, id as int, mate.0 as int)) by {
                                        assert(mate_to(self.room_at(id as int)->0.mates[p as int], mate.0 as int));
                                    }
                                    assert(self.reach_in(without, depth[id as int] + 1, mate.0 as int));
                                    depth = depth.update(mate.0 as int, depth[id as int] + 1);
                                }
                                seen[mate.0 as usize] = true;
                                frontier.push(mate.0);
                                proof {
                                    assert(seen@ =~= old_seen.update(mate.0 as int, true));
                                    assert(frontier@ =~= old_front.push(mate.0));
                                    assert forall|i: int| 0 <= i < old_front.len() implies frontier@[i] == old_front[i] by {}
                                    assert forall|a: int, c: int|
                                        0 <= a < MAX_ROOMS && a != id && seen@[a] && !frontier@.contains(a as RoomId)
                                            && 0 <= c < MAX_ROOMS && #[trigger] self.reach_step(without, a, c) implies seen@[c] by {
                                        assert(frontier@[frontier.len() - 1] == mate.0);
                                        assert(a != mate.0);
                                        assert(old_seen[a]);
                                        if old_front.contains(a as RoomId) {
                                            let j = choose|j: int| 0 <= j < old_front.len() && old_front[j] == a as RoomId;
                                            assert(frontier@[j] == a as RoomId);
                                        }
                                        assert(old_seen[c]);
                                    }
                                    assert forall|k: int| 0 <= k < MAX_ROOMS && #[trigger] seen@[k] implies self.reach_in(without, depth[k], k) by {
                                        if k != mate.0 {
                                            assert(old_seen[k]);
                                        }
                                    }
                                }
                            }
                        }
                        p = p + 1;
                    }
                    proof {
                        assert forall|a: int, c: int|
                            0 <= a < MAX_ROOMS && seen@[a] && !frontier@.contains(a as RoomId) && 0 <= c < MAX_ROOMS
                                && #[trigger] self.reach_step(without, a, c) implies seen@[c] by {
                            if a == id {
                                let pp = choose|pp: int| 0 <= pp < PORTS && mate_to(#[trigger] self.room_at(a)->0.mates[pp], c);
                                assert(room.mates[pp] is Some);
                            }
                        }
                    }
                },
            }
        }
        proof {
            assert forall|b: int| 0 <= b < MAX_ROOMS implies #[trigger] seen@[b] == self.reaches(without, b) by {
                if seen@[b] {
                    assert(self.reach_in(without, depth[b], b));
                }
                if self.reaches(without, b) {
                    let n = choose|n: nat| #[trigger] self.reach_in(without, n, b);
                    self.lemma_closed_holds(without, seen@, n, b);
                }
            }
        }
        seen
    }

    /// Whether `room` is `id` itself or sits behind it — the rooms a
    /// detach would take with it.
    pub fn beyond(&self, id: RoomId, room: RoomId) -> (r: bool)
        requires
            self.wf(),
        ensures
            r == (room == id || (self.present(room as int) && !self.reaches(id, room as int))),
    {
        if room == id {
            return true;
        }
        if self.get(room).is_none() {
            return false;
        }
        proof {
            self.lemma_placed(room as int);
        }
        let seen = self.reachable(id);
        !seen[room as usize]
    }
}


impl Rooms {
    /// Whether `y` is the bare yard: the cabin alone at the lattice
    /// origin, nothing mated, and the attach order just the cabin.
    pub open spec fn yard(y: Rooms) -> bool {
        &&& y.wf()
        &&& y.room_at(CABIN as int) == Some(
            Room {
                kind: RoomKind::Cabin,
                pose: Pose { x: 0, y: 0, z: 0, yaw: 0 },
                mates: [None; PORTS],
                anchor: None,
            },
        )
        &&& forall|id: int| id != CABIN ==> !#[trigger] y.present(id)
        &&& y.attach_order() == seq![CABIN]
    }

    /// Whether `self` is the ship as it leaves the yard: the bare yard
    /// with the burner attached at the cabin's starboard door, wherever
    /// the attach rules put it.
    pub open spec fn launched(self) -> bool {
        exists|y: Rooms|
            #[trigger] Self::yard(y) && match y.spec_attach(CABIN as int, 1, RoomKind::Burner, 3) {
                Ok(pose) => self.placed(y, y.free_from(0)->0, RoomKind::Burner, pose, Some((CABIN, 1, 3))),
                Err(_) => self@ == y@,
            }
    }

    /// The ship as it leaves the yard: the cabin, and the burner bolted
    /// to its starboard door.
    pub fn new() -> (r: Self)
        ensures
            r.wf(),
            r.launched(),
            r.kind_at(CABIN as int) == Some(RoomKind::Cabin),
            r.room_at(CABIN as int)->0.anchor is None,
            forall|id: int| id != CABIN && id != 1 ==> !#[trigger] r.present(id),
            r.present(1),
            r.kind_at(1) == Some(RoomKind::Burner),
            r.room_at(1)->0.anchor == Some((CABIN, 1u8, 3u8)),
            r.room_at(1)->0.pose == (Pose { x: 8, y: 0, z: 0, yaw: 0 }),
            r.room_at(CABIN as int)->0.pose == (Pose { x: 0, y: 0, z: 0, yaw: 0 }),
            r.room_at(CABIN as int)->0.mates[0] is None,
            r.attach_order() == seq![CABIN, 1u8],
    {
        let mut rooms = Self::root(RoomKind::Cabin);
        let ghost y = rooms;
        let burner = rooms.attach(CABIN, 1, RoomKind::Burner, 3);
        proof {
            assert(Self::yard(y));
            assert(y.present(0));
            assert(!y.present(1));
            assert(y.free_from(1) == Some(1int));
            assert(y.free_from(0) == Some(1int));
            assert(seq![CABIN].push(1u8) =~= seq![CABIN, 1u8]);
            lemma_burner_fits(y);
            let pose = Pose { x: 8, y: 0, z: 0, yaw: 0 };
            assert(!exists|p: u8| #[trigger] y.forms_mate(RoomKind::Burner, pose, None, (p, 0u8, 0u8)));
            assert(y.mate_after(RoomKind::Burner, pose, 1, 0, 0, rooms.room_at(0)->0.mates[0]));
            assert(y.room_at(0)->0.mates[0] is None);
        }
        rooms
    }
}

impl Default for Rooms {
    fn default() -> (r: Self)
        ensures
            r.wf(),
            r.launched(),
    {
        Self::new()
    }
}

} // verus!

verus! {

/// The burner's seat on a yard cabin: hung off the cabin's starboard
/// door, floor to floor, square with it.
pub proof fn lemma_burner_fits(y: Rooms)
    requires
        Rooms::yard(y),
    ensures
        y.spec_attach(CABIN as int, 1, RoomKind::Burner, 3) == Ok::<Pose, Refusal>(Pose { x: 8, y: 0, z: 0, yaw: 0 }),
        forall|p: u8, q: u8|
            #[trigger] y.forms_mate(RoomKind::Burner, Pose { x: 8, y: 0, z: 0, yaw: 0 }, None, (p, CABIN, q)) ==> q
                == 1,
{
    let p0 = Pose { x: 0, y: 0, z: 0, yaw: 0 };
    let pose = Pose { x: 8, y: 0, z: 0, yaw: 0 };
    let cab = y.room_at(0).unwrap();
    assert(cab.kind == RoomKind::Cabin && cab.pose == p0);
    assert(outside_columns(RoomKind::Cabin, p0, 1) =~= seq![(8int, 0int), (8int, 1int)]);
    assert(seq![(8int, 0int), (8int, 1int)].drop_last() =~= seq![(8int, 0int)]);
    assert(lex_min(seq![(8int, 0int), (8int, 1int)]) == (8int, 0int)) by {
        reveal_with_fuel(lex_min, 2);
    }
    assert(inside_columns(RoomKind::Burner, p0, 3) =~= seq![(0int, 0int), (0int, 1int)]);
    assert(seq![(0int, 0int), (0int, 1int)].drop_last() =~= seq![(0int, 0int)]);
    assert(lex_min(seq![(0int, 0int), (0int, 1int)]) == (0int, 0int)) by {
        reveal_with_fuel(lex_min, 2);
    }
    assert(y.spec_mate_pose(CABIN as int, 1, RoomKind::Burner, 3) == Ok::<Pose, Refusal>(pose)) by {
        assert(!y.box_blocked(RoomKind::Burner, pose)) by {
            assert forall|id: int| 0 <= id < MAX_ROOMS && y.present(id) implies apart(
                Room { kind: RoomKind::Burner, pose, mates: (#[trigger] y.room_at(id))->0.mates, anchor: None },
                y.room_at(id)->0,
            ) by {
                assert(id == 0);
            }
        }
    }
    assert(cab.mates[0] is None && cab.mates[1] is None);
    assert(Rooms::first_coinciding(RoomKind::Burner, pose, 3, cab, 0) == Some(1int)) by {
        reveal_with_fuel(Rooms::first_coinciding, 2);
        assert(!coincide(RoomKind::Burner, pose, 3, RoomKind::Cabin, p0, 0)) by {
            assert(!seam_matched(RoomKind::Burner, pose, 3, RoomKind::Cabin, p0, 0, 0));
        }
        assert(coincide(RoomKind::Burner, pose, 3, RoomKind::Cabin, p0, 1)) by {
            assert(seam_matched(RoomKind::Burner, pose, 3, RoomKind::Cabin, p0, 1, 0)) by {
                assert(seam_in(RoomKind::Cabin, p0, 1, 0) == seam_out(RoomKind::Burner, pose, 3, 0));
            }
            assert(seam_matched(RoomKind::Burner, pose, 3, RoomKind::Cabin, p0, 1, 1)) by {
                assert(seam_in(RoomKind::Cabin, p0, 1, 1) == seam_out(RoomKind::Burner, pose, 3, 1));
            }
        }
    }
    assert forall|p: u8, q: u8|
        #[trigger] y.forms_mate(RoomKind::Burner, pose, None, (p, CABIN, q)) implies q == 1 by {
        if p != 3 {
            assert(seam_count(RoomKind::Burner, p as int) == 0);
        }
    }
    assert(!y.present(1));
    assert(y.free_from(1) == Some(1int));
    assert(y.free_from(0) == Some(1int));
    assert(y.closes(RoomKind::Burner, pose, None)) by {
        assert forall|p: int, id: int|
            0 <= p < PORTS && y.considered(None, id) && #[trigger] leads_into(
                RoomKind::Burner,
                pose,
                p,
                y.room_at(id)->0.kind,
                y.room_at(id)->0.pose,
            ) implies Rooms::first_coinciding(RoomKind::Burner, pose, p, y.room_at(id)->0, 0) is Some by {
            assert(id == 0);
            if p != 3 {
                assert(seam_count(RoomKind::Burner, p) == 0);
            }
        }
        assert forall|id: int, q: int|
            0 <= q < PORTS && y.considered(None, id) && y.room_at(id)->0.mates[q] is None && #[trigger] leads_into(
                y.room_at(id)->0.kind,
                y.room_at(id)->0.pose,
                q,
                RoomKind::Burner,
                pose,
            ) implies exists|p: int|
            0 <= p < PORTS && leads_into(RoomKind::Burner, pose, p, y.room_at(id)->0.kind, y.room_at(id)->0.pose)
                && #[trigger] Rooms::first_coinciding(RoomKind::Burner, pose, p, y.room_at(id)->0, 0) == Some(q) by {
            assert(id == 0);
            let k = choose|k: int|
                0 <= k < seam_count(RoomKind::Cabin, q) && #[trigger] body_contains(
                    RoomKind::Burner,
                    pose,
                    seam_out(RoomKind::Cabin, p0, q, k),
                );
            assert(q == 1);
            assert(body_contains(RoomKind::Cabin, p0, seam_out(RoomKind::Burner, pose, 3, 0)));
            assert(leads_into(RoomKind::Burner, pose, 3, RoomKind::Cabin, p0));
        }
    }
}

} // verus!

verus! {

/// The market's seat on a ship just out of the yard: hung off the
/// cabin's aft door, turned to face it, the first seat the spawn walk
/// tries; and the slot it takes is room 2.
pub proof fn lemma_market_fits(r: Rooms)
    requires
        r.wf(),
        forall|id: int| id != CABIN && id != 1 ==> !#[trigger] r.present(id),
        r.present(1),
        r.kind_at(CABIN as int) == Some(RoomKind::Cabin),
        r.kind_at(1) == Some(RoomKind::Burner),
        r.room_at(1)->0.pose == (Pose { x: 8, y: 0, z: 0, yaw: 0 }),
        r.room_at(CABIN as int)->0.pose == (Pose { x: 0, y: 0, z: 0, yaw: 0 }),
        r.room_at(CABIN as int)->0.mates[0] is None,
    ensures
        r.spec_count() == 2,
        r.free_from(0) == Some(2int),
        r.walk_first(RoomKind::Trade, CABIN, (0u8, 0u8, 0u8)),
        r.walk_open(RoomKind::Trade, CABIN),
{
    let p0 = Pose { x: 0, y: 0, z: 0, yaw: 0 };
    let bp = Pose { x: 8, y: 0, z: 0, yaw: 0 };
    let tp = Pose { x: -4i32, y: -5i32, z: 0, yaw: 2 };
    let cab = r.room_at(0)->0;
    let bur = r.room_at(1)->0;
    assert(r.present(0));
    assert(r.spec_count() == 2) by {
        reveal_with_fuel(Rooms::count_upto, 11);
    }
    assert(r.free_from(0) == Some(2int)) by {
        reveal_with_fuel(Rooms::free_from, 3);
    }
    assert(door_turn(0, 0, 0) == Some(2int));
    assert(outside_columns(RoomKind::Cabin, p0, 0) =~= seq![(0int, -1int), (1int, -1int)]);
    assert(seq![(0int, -1int), (1int, -1int)].drop_last() =~= seq![(0int, -1int)]);
    assert(lex_min(seq![(0int, -1int), (1int, -1int)]) == (0int, -1int)) by {
        reveal_with_fuel(lex_min, 2);
    }
    let base = Pose { x: 0, y: 0, z: 0, yaw: 2 };
    assert(inside_columns(RoomKind::Trade, base, 0) =~= seq![(5int, 4int), (4int, 4int)]);
    assert(seq![(5int, 4int), (4int, 4int)].drop_last() =~= seq![(5int, 4int)]);
    assert(lex_min(seq![(5int, 4int), (4int, 4int)]) == (4int, 4int)) by {
        reveal_with_fuel(lex_min, 2);
    }
    assert(!r.box_blocked(RoomKind::Trade, tp)) by {
        assert forall|id: int| 0 <= id < MAX_ROOMS && r.present(id) implies apart(
            Room { kind: RoomKind::Trade, pose: tp, mates: (#[trigger] r.room_at(id))->0.mates, anchor: None },
            r.room_at(id)->0,
        ) by {
            assert(id == 0 || id == 1);
        }
    }
    assert(r.spec_mate_pose(0, 0, RoomKind::Trade, 0) == Ok::<Pose, Refusal>(tp));
    assert(Rooms::first_coinciding(RoomKind::Trade, tp, 0, cab, 0) == Some(0int)) by {
        assert(coincide(RoomKind::Trade, tp, 0, RoomKind::Cabin, p0, 0)) by {
            assert(seam_matched(RoomKind::Trade, tp, 0, RoomKind::Cabin, p0, 0, 0)) by {
                assert(seam_in(RoomKind::Cabin, p0, 0, 1) == seam_out(RoomKind::Trade, tp, 0, 0));
            }
            assert(seam_matched(RoomKind::Trade, tp, 0, RoomKind::Cabin, p0, 0, 1)) by {
                assert(seam_in(RoomKind::Cabin, p0, 0, 0) == seam_out(RoomKind::Trade, tp, 0, 1));
            }
        }
    }
    assert(leads_into(RoomKind::Trade, tp, 0, RoomKind::Cabin, p0)) by {
        assert(body_contains(RoomKind::Cabin, p0, seam_out(RoomKind::Trade, tp, 0, 0)));
    }
    assert(r.closes(RoomKind::Trade, tp, None)) by {
        assert forall|p: int, id: int|
            0 <= p < PORTS && r.considered(None, id) && #[trigger] leads_into(
                RoomKind::Trade,
                tp,
                p,
                r.room_at(id)->0.kind,
                r.room_at(id)->0.pose,
            ) implies Rooms::first_coinciding(RoomKind::Trade, tp, p, r.room_at(id)->0, 0) is Some by {
            assert(id == 0 || id == 1);
            if p != 0 {
                assert(seam_count(RoomKind::Trade, p) == 0);
            } else if id == 1 {
                let k = choose|k: int|
                    0 <= k < seam_count(RoomKind::Trade, 0) && #[trigger] body_contains(
                        RoomKind::Burner,
                        bp,
                        seam_out(RoomKind::Trade, tp, 0, k),
                    );
                assert(k == 0 || k == 1);
            }
        }
        assert forall|id: int, q: int|
            0 <= q < PORTS && r.considered(None, id) && r.room_at(id)->0.mates[q] is None && #[trigger] leads_into(
                r.room_at(id)->0.kind,
                r.room_at(id)->0.pose,
                q,
                RoomKind::Trade,
                tp,
            ) implies exists|p: int|
            0 <= p < PORTS && leads_into(RoomKind::Trade, tp, p, r.room_at(id)->0.kind, r.room_at(id)->0.pose)
                && #[trigger] Rooms::first_coinciding(RoomKind::Trade, tp, p, r.room_at(id)->0, 0) == Some(q) by {
            assert(id == 0 || id == 1);
            let k = choose|k: int|
                0 <= k < seam_count(r.room_at(id)->0.kind, q) && #[trigger] body_contains(
                    RoomKind::Trade,
                    tp,
                    seam_out(r.room_at(id)->0.kind, r.room_at(id)->0.pose, q, k),
                );
            assert(k == 0 || k == 1 || k == 2 || k == 3);
            assert(id == 0 && q == 0);
        }
    }
    assert(r.spec_validate(0, 0, RoomKind::Trade, 0) == Ok::<Pose, Refusal>(tp));
    assert(r.walk_try(RoomKind::Trade, (0u8, 0u8, 0u8)) is Ok);
    assert(r.walk_candidate(CABIN, (0u8, 0u8, 0u8)));
}

} // verus!

verus! {

/// **A room's nets agree, and its doorways stay clear**: a cell has a
/// tile exactly when it lies on some chart of the net; no cell of a
/// door's entry path is ever an offer tile; and a fixture tile is always
/// the room's own hardware.
pub proof fn lemma_net_reads(kind: RoomKind, x: int, y: int)
    ensures
        kind.spec_tile_of(x, y) is None <==> kind.spec_surface_of(x, y) is None,
        kind.spec_entry_path(x, y) ==> kind.spec_surface_of(x, y) is Some && kind.spec_tile_of(x, y) != Some(
            Tile::Offer,
        ),
        kind.spec_tile_of(x, y) == Some(Tile::Fixture) ==> kind.spec_fixture(x, y),
{
}

/// **A declared port's aperture lands in its own net**: each of its
/// four cells lies on a chart of the room's net and reads as threshold,
/// and no cell is punched by two of the kind's ports.
pub proof fn lemma_apertures_land(kind: RoomKind, p: int, k: int)
    requires
        0 <= p < 6,
        0 <= k < 4,
        kind.spec_port(p) is Some,
    ensures
        ({
            let c = kind.aperture_cell(kind.spec_port(p)->0, k);
            &&& kind.spec_surface_of(c.0, c.1) is Some
            &&& kind.spec_tile_of(c.0, c.1) == Some(Tile::Threshold)
            &&& forall|q: int, j: int|
                0 <= q < 6 && 0 <= j < 4 && q != p && #[trigger] kind.spec_port(q) is Some ==> #[trigger] kind.aperture_cell(
                    kind.spec_port(q)->0,
                    j,
                ) != c
        }),
{
    let c = kind.aperture_cell(kind.spec_port(p)->0, k);
    assert(k == 0 || k == 1 || k == 2 || k == 3);
    assert(kind.spec_surface_of(c.0, c.1) is Some);
    assert(kind.in_some_aperture(c.0, c.1));
    assert forall|q: int, j: int|
        0 <= q < 6 && 0 <= j < 4 && q != p && #[trigger] kind.spec_port(q) is Some implies #[trigger] kind.aperture_cell(
        kind.spec_port(q)->0,
        j,
    ) != c by {
        assert(j == 0 || j == 1 || j == 2 || j == 3);
    }
}

/// **A door opens a lane**: each cell of a declared door's aperture lies
/// on the room's entry path.
pub proof fn lemma_door_lane(kind: RoomKind, p: int, k: int)
    requires
        0 <= p < 6,
        0 <= k < 4,
        is_door(kind.spec_port(p)),
    ensures
        ({
            let c = kind.aperture_cell(kind.spec_port(p)->0, k);
            kind.spec_entry_path(c.0, c.1)
        }),
{
    let c = kind.aperture_cell(kind.spec_port(p)->0, k);
    assert(k == 0 || k == 1 || k == 2 || k == 3);
    assert(kind.door_lane(p, c.0, c.1));
}

/// **Only a door opens a lane**: a cell lies on a room's entry path only
/// where the kind declares a door.
pub proof fn lemma_lanes_need_doors(kind: RoomKind, x: int, y: int)
    ensures
        kind.spec_entry_path(x, y) ==> exists|p: int| 0 <= p < 6 && #[trigger] is_door(kind.spec_port(p)),
{
    if kind.spec_entry_path(x, y) {
        let p = choose|p: int| 0 <= p < 6 && #[trigger] kind.door_lane(p, x, y);
        assert(is_door(kind.spec_port(p)));
    }
}

/// **A doorstep is deck**: a cell a declared door stands on lies on the
/// floor chart, and no port's aperture punches it.
pub proof fn lemma_doorstep_on_deck(kind: RoomKind, x: int, y: int)
    ensures
        kind.spec_doorstep(x, y) ==> kind.spec_surface_of(x, y) == Some(Surf::Floor) && kind.spec_tile_of(x, y)
            != Some(Tile::Threshold),
{
    if kind.spec_doorstep(x, y) {
        let (p, along) = choose|p: int, along: int|
            0 <= p < 6 && 0 <= along < 2 && is_door(#[trigger] kind.spec_port(p))
                && #[trigger] kind.doorstep_cell(kind.spec_port(p)->0, along) == (x, y);
        assert(kind.spec_surface_of(x, y) == Some(Surf::Floor));
        assert forall|q: int, j: int|
            0 <= q < 6 && 0 <= j < 4 && #[trigger] kind.spec_port(q) is Some implies #[trigger] kind.aperture_cell(
            kind.spec_port(q)->0,
            j,
        ) != (x, y) by {
            assert(j == 0 || j == 1 || j == 2 || j == 3);
        }
        assert(!kind.in_some_aperture(x, y));
    }
}

/// The first free slot from `from` on is no later than a free slot `id`.
proof fn lemma_free_at_most(r: Rooms, from: int, id: int)
    requires
        0 <= from <= id < MAX_ROOMS,
        !r.present(id),
    ensures
        r.free_from(from) matches Some(f) && from <= f <= id,
    decreases id - from,
{
    if r.present(from) {
        lemma_free_at_most(r, from + 1, id);
    }
}

/// **A detached room's id is free again at once**: after room `id` is
/// cut loose, the lowest free slot, which the next attach or spawn
/// takes, is no higher than `id`.
pub proof fn lemma_detach_frees_id(before: Rooms, after: Rooms, id: int)
    requires
        0 <= id < MAX_ROOMS,
        after.detached(before, id),
    ensures
        after.free_from(0) matches Some(f) && f <= id,
{
    lemma_free_at_most(after, 0, id);
}

/// A cell on a chart of the room's net, in no aperture, on no door's
/// lane, and no fixture, reads as its band.
proof fn lemma_clear_cell(kind: RoomKind, x: int, y: int)
    requires
        kind.spec_surface_of(x, y) is Some,
        forall|p: int| 0 <= p < 6 ==> !#[trigger] kind.door_lane(p, x, y),
        forall|p: int, k: int|
            0 <= p < 6 && 0 <= k < 4 && #[trigger] kind.spec_port(p) is Some ==> #[trigger] kind.aperture_cell(
                kind.spec_port(p)->0,
                k,
            ) != (x, y),
        !kind.spec_fixture(x, y),
    ensures
        kind.spec_tile_of(x, y) == Some(kind.band_tile(kind.spec_surface_of(x, y)->0, y)),
{
    assert(!kind.in_some_aperture(x, y));
    assert(!kind.spec_entry_path(x, y));
}

/// A market's or a parlor's cell `(x, y)` that no port's aperture and no
/// door's lane reaches, given as a cell of the front band.
proof fn lemma_calling_cell_clear(kind: RoomKind, x: int, y: int)
    requires
        kind == RoomKind::Trade || kind == RoomKind::Parlor,
        kind.spec_surface_of(x, y) is Some,
        !kind.spec_fixture(x, y),
        y >= 3,
        x >= 5,
        kind.spec_surface_of(x, y) == Some(Surf::Ceiling) ==> x < 6 + 2 * kind.width() - 2,
    ensures
        kind.spec_tile_of(x, y) == Some(kind.band_tile(kind.spec_surface_of(x, y)->0, y)),
{
    assert forall|p: int| 0 <= p < 6 implies !#[trigger] kind.door_lane(p, x, y) by {}
    assert forall|p: int, k: int|
        0 <= p < 6 && 0 <= k < 4 && #[trigger] kind.spec_port(p) is Some implies #[trigger] kind.aperture_cell(
        kind.spec_port(p)->0,
        k,
    ) != (x, y) by {
        assert(k == 0 || k == 1 || k == 2 || k == 3);
    }
    lemma_clear_cell(kind, x, y);
}

/// **A calling room keeps its offer area on every chart it proposes
/// on**: a market and a parlor each keep an offer cell on the deck, on
/// the front wall and on the ceiling, clear of the way in.
pub proof fn lemma_offers_kept(kind: RoomKind)
    requires
        kind == RoomKind::Trade || kind == RoomKind::Parlor,
    ensures
        exists|x: int, y: int|
            kind.spec_surface_of(x, y) == Some(Surf::Floor) && #[trigger] kind.spec_tile_of(x, y) == Some(Tile::Offer),
        exists|x: int, y: int|
            kind.spec_surface_of(x, y) == Some(Surf::Front) && #[trigger] kind.spec_tile_of(x, y) == Some(Tile::Offer),
        exists|x: int, y: int|
            kind.spec_surface_of(x, y) == Some(Surf::Ceiling) && #[trigger] kind.spec_tile_of(x, y) == Some(Tile::Offer),
{
    if kind == RoomKind::Trade {
        lemma_calling_cell_clear(kind, 7, 7);
        lemma_calling_cell_clear(kind, 7, 9);
        lemma_calling_cell_clear(kind, 13, 7);
        assert(kind.spec_tile_of(7, 7) == Some(Tile::Offer));
        assert(kind.spec_tile_of(7, 9) == Some(Tile::Offer));
        assert(kind.spec_tile_of(13, 7) == Some(Tile::Offer));
    } else {
        lemma_calling_cell_clear(kind, 6, 6);
        lemma_calling_cell_clear(kind, 6, 8);
        lemma_calling_cell_clear(kind, 10, 6);
        assert(kind.spec_tile_of(6, 6) == Some(Tile::Offer));
        assert(kind.spec_tile_of(6, 8) == Some(Tile::Offer));
        assert(kind.spec_tile_of(10, 6) == Some(Tile::Offer));
    }
}

/// **A room's counter stands clear of the way in**: a fixture cell on
/// the deck lies on no door's entry path and on no door's doorstep.
pub proof fn lemma_counter_clear(kind: RoomKind, x: int, y: int)
    ensures
        kind.spec_tile_of(x, y) == Some(Tile::Fixture) && kind.spec_surface_of(x, y) == Some(Surf::Floor)
            ==> !kind.spec_entry_path(x, y) && !kind.spec_doorstep(x, y),
{
    if kind.spec_tile_of(x, y) == Some(Tile::Fixture) && kind.spec_surface_of(x, y) == Some(Surf::Floor) {
        assert(kind.spec_fixture(x, y));
        assert forall|p: int| 0 <= p < 6 implies !#[trigger] kind.door_lane(p, x, y) by {
            assert(p == 0 || p == 1 || p == 2 || p == 3 || p == 4 || p == 5);
        }
        assert forall|p: int, along: int|
            0 <= p < 6 && 0 <= along < 2 && is_door(#[trigger] kind.spec_port(p)) implies #[trigger] kind.doorstep_cell(
            kind.spec_port(p)->0,
            along,
        ) != (x, y) by {
            assert(p == 0 || p == 1 || p == 2 || p == 3 || p == 4 || p == 5);
        }
    }
}

} // verus!
