//! The simulation's integer heart: every rule that decides where cargo
//! may stand, what a station pays, and how a room mates, with no float
//! in sight.

pub mod barter;
pub mod cargo;
pub mod deal;
pub mod encounter;
pub mod event;
pub mod map;
pub mod rats;
pub mod room;
pub mod run;
pub mod save;
pub mod underway;
pub mod voyage;

use vstd::prelude::*;
use crate::sim::cargo::{
    CABINET_SLOTS, Kind, Loc, Piece, Tag, Violation, cubby_taken, dressing_check, free_cubby,
    last_vital_aboard, placement_check, player_owned, spec_dressing, spec_last_vital, spec_loc_room,
    spec_placement, spec_player_owned, spec_staying, spec_stowable, stowable,
};
use crate::sim::room::{CABIN, MAX_ROOMS, Refusal, RoomId, RoomKind, Rooms, Tile};

verus! {

/// Splitmix64's finalizer as a pure function of its two inputs.
pub open spec fn spec_splitmix(state: u64, salt: u64) -> u64 {
    let z0 = vstd::wrapping::u64_specs::wrapping_add(
        vstd::wrapping::u64_specs::wrapping_add(state, 0x9E37_79B9_7F4A_7C15u64),
        vstd::wrapping::u64_specs::wrapping_mul(salt, 0xBF58_476D_1CE4_E5B9u64),
    );
    let z1 = vstd::wrapping::u64_specs::wrapping_mul(z0 ^ (z0 >> 30u64), 0xBF58_476D_1CE4_E5B9u64);
    let z2 = vstd::wrapping::u64_specs::wrapping_mul(z1 ^ (z1 >> 27u64), 0x94D0_49BB_1331_11EBu64);
    z2 ^ (z2 >> 31u64)
}

/// **Splitmix folds its salt into its state**: mixing `state` with
/// `salt` is mixing, with no salt, the state that the salt's multiple of
/// the mixing constant is added to (all modulo 2^64).
pub proof fn lemma_splitmix_folds_salt(state: u64, salt: u64)
    ensures
        spec_splitmix(state, salt) == spec_splitmix(
            vstd::wrapping::u64_specs::wrapping_add(
                state,
                vstd::wrapping::u64_specs::wrapping_mul(salt, 0xBF58_476D_1CE4_E5B9u64),
            ),
            0,
        ),
{
    let m = vstd::wrapping::u64_specs::wrapping_mul(salt, 0xBF58_476D_1CE4_E5B9u64);
    assert(vstd::wrapping::u64_specs::wrapping_mul(0u64, 0xBF58_476D_1CE4_E5B9u64) == 0u64);
    let folded = vstd::wrapping::u64_specs::wrapping_add(state, m);
    assert(vstd::wrapping::u64_specs::wrapping_add(
        vstd::wrapping::u64_specs::wrapping_add(state, 0x9E37_79B9_7F4A_7C15u64),
        m,
    ) == vstd::wrapping::u64_specs::wrapping_add(
        vstd::wrapping::u64_specs::wrapping_add(folded, 0x9E37_79B9_7F4A_7C15u64),
        0u64,
    ));
}

/// Splitmix64's finalizer as a combiner: fold `salt` into `state` and
/// return an independent, well-mixed value. Every derived randomness in
/// the sim chains through this.
pub fn splitmix(state: u64, salt: u64) -> (r: u64)
    ensures
        r == spec_splitmix(state, salt),
{
    let mut z = state.wrapping_add(0x9E37_79B9_7F4A_7C15).wrapping_add(
        salt.wrapping_mul(0xBF58_476D_1CE4_E5B9),
    );
    z = (z ^ (z >> 30)).wrapping_mul(0xBF58_476D_1CE4_E5B9);
    z = (z ^ (z >> 27)).wrapping_mul(0x94D0_49BB_1331_11EB);
    z ^ (z >> 31)
}

/// A piece mid-carry. Each crew member can hold at most one, and a piece
/// held by anyone is ungrabbable by everyone else.
#[derive(Clone, Copy, Debug, PartialEq, Eq)]
pub struct Held {
    /// Id of the piece being carried.
    pub piece: u32,
    /// Where it was lifted from, and where it snaps back to.
    pub origin: Loc,
    /// Whether dropping at the current pointer would succeed.
    pub legal: bool,
}

/// Which classes of berth could accept the held piece: the same
/// ownership rule a release applies — the berth's room and tile class,
/// and nothing else — so what a room invites is always what a release
/// does.
#[derive(Clone, Copy, Debug, PartialEq, Eq, Structural)]
pub struct DropTargets {
    /// Ordinary cells of any attached room.
    pub berth: bool,
    /// Some cabinet's cubbies (a stowable piece, a free cubby).
    pub stow: bool,
    /// A calling room's offer area (the player's own cargo, proposed).
    pub offer: bool,
    /// The incinerator's hazard tiles.
    pub consume: bool,
}

/// What a fast-forward lived through, so the frontend can summarise an
/// absence instead of replaying its cues.
#[derive(Clone, Copy, Debug, PartialEq, Eq, Structural)]
pub struct CatchUp {
    /// Ticks actually run.
    pub ticks: u64,
    /// The ship docked somewhere along the way.
    pub arrived: bool,
    /// A suspicious-cargo jump fired along the way.
    pub jumped: bool,
}

/// Whether room `at` is `room` itself or sits behind it: what a detach
/// of `room` would take along.
pub open spec fn behind(rooms: Rooms, room: RoomId, at: RoomId) -> bool {
    at == room || (rooms.present(at as int) && !rooms.reaches(room, at as int))
}

/// The room piece `p` of `pieces` is berthed in, following a cubby to its
/// cabinet.
pub open spec fn berth_room(pieces: Seq<Piece>, p: Piece) -> Option<RoomId> {
    spec_loc_room(pieces, p.loc, pieces.len() as nat)
}

/// Whether `p` stands on an offer tile of `room` or of a room behind it.
pub open spec fn offered_behind(rooms: Rooms, room: RoomId, p: Piece) -> bool {
    match p.loc {
        Loc::Hold { room: at, x, y } => behind(rooms, room, at) && rooms.tile_at(at as int, x as int, y as int)
            == Some(Tile::Offer),
        _ => false,
    }
}

/// Whether a proposal still lies on `room`'s offer area.
pub open spec fn spec_offer_pending(rooms: Rooms, pieces: Seq<Piece>, room: RoomId) -> bool {
    exists|i: int| 0 <= i < pieces.len() && offered_behind(rooms, room, #[trigger] pieces[i])
}

/// Whether `p` is the player's and rests in `room` or behind it.
pub open spec fn strands(rooms: Rooms, pieces: Seq<Piece>, room: RoomId, p: Piece) -> bool {
    &&& berth_room(pieces, p) matches Some(at)
    &&& behind(rooms, room, at)
    &&& spec_player_owned(rooms, p.loc)
}

/// The gangway law's detach gates, in the order they are asked: **a seam
/// that could strand anything refuses to part.**
pub open spec fn spec_part_check(rooms: Rooms, pieces: Seq<Piece>, occupied: Seq<RoomId>, room: RoomId) -> Result<
    (),
    Refusal,
> {
    if room == CABIN {
        Err(Refusal::Root)
    } else if !rooms.present(room as int) {
        Err(Refusal::Absent)
    } else if exists|j: int| 0 <= j < occupied.len() && behind(rooms, room, #[trigger] occupied[j]) {
        Err(Refusal::Aboard)
    } else if exists|i: int| 0 <= i < pieces.len() && strands(rooms, pieces, room, #[trigger] pieces[i]) {
        Err(Refusal::Cargo)
    } else if spec_offer_pending(rooms, pieces, room) {
        Err(Refusal::Pending)
    } else {
        Ok(())
    }
}

/// Whether `p` is the player's and rests in a room that stays behind at
/// a cast-off.
pub open spec fn left_ashore(rooms: Rooms, pieces: Seq<Piece>, p: Piece) -> bool {
    &&& berth_room(pieces, p) matches Some(at)
    &&& !rooms.riding_at(at as int)
    &&& spec_player_owned(rooms, p.loc)
}

/// Whether attached room `id` still has business: a trade room with a
/// proposal on its offer area, or any event room.
pub open spec fn unresolved(rooms: Rooms, pieces: Seq<Piece>, id: int) -> bool {
    match rooms.kind_at(id) {
        Some(RoomKind::Trade) => spec_offer_pending(rooms, pieces, id as RoomId),
        Some(RoomKind::Wreck) | Some(RoomKind::Parlor) | Some(RoomKind::Pump) => true,
        _ => false,
    }
}

/// The launch gate, in the order it is asked: every crew body in a riding
/// room, nothing of the player's in a calling room, and no attached room
/// with unfinished business.
pub open spec fn spec_launch_gate(rooms: Rooms, pieces: Seq<Piece>, occupied: Seq<RoomId>) -> Result<(), Refusal> {
    if exists|j: int| 0 <= j < occupied.len() && !rooms.riding_at(#[trigger] occupied[j] as int) {
        Err(Refusal::Aboard)
    } else if exists|i: int| 0 <= i < pieces.len() && left_ashore(rooms, pieces, #[trigger] pieces[i]) {
        Err(Refusal::Cargo)
    } else if exists|id: int| 0 <= id < MAX_ROOMS && #[trigger] unresolved(rooms, pieces, id) {
        Err(Refusal::Pending)
    } else {
        Ok(())
    }
}

/// Whether cabinet `cabinet` has a cubby free.
pub open spec fn has_free_cubby(pieces: Seq<Piece>, cabinet: u32) -> bool {
    exists|t: int| 0 <= t < CABINET_SLOTS && !#[trigger] cubby_taken(pieces, cabinet, t)
}

/// Whether `other` is a standing cabinet, not `piece` itself, with a
/// cubby free.
pub open spec fn takes_into_cubby(pieces: Seq<Piece>, piece: Piece, other: Piece) -> bool {
    &&& other.id != piece.id
    &&& other.kind == Kind::Cabinet
    &&& other.loc is Hold
    &&& has_free_cubby(pieces, other.id)
}

/// Whether slot `id` holds a room that calls rather than rides.
pub open spec fn calls_at(rooms: Rooms, id: int) -> bool {
    rooms.kind_at(id) matches Some(k) && !k.spec_riding()
}

/// Whether some attached room calls rather than rides.
pub open spec fn caller_alongside(rooms: Rooms) -> bool {
    exists|id: int| 0 <= id < MAX_ROOMS && #[trigger] calls_at(rooms, id)
}

/// The berth classes that would take `piece` from the player's hands.
pub open spec fn spec_drop_targets(rooms: Rooms, pieces: Seq<Piece>, piece: Piece) -> DropTargets {
    let ours = spec_player_owned(rooms, piece.loc);
    let vital = spec_last_vital(rooms, pieces, piece);
    DropTargets {
        berth: ours,
        stow: ours && spec_stowable(piece.kind) && exists|i: int|
            0 <= i < pieces.len() && takes_into_cubby(pieces, piece, #[trigger] pieces[i]),
        offer: ours && !vital && caller_alongside(rooms),
        consume: ours && !vital && piece.kind != Kind::SuspiciousCrate,
    }
}

/// Whether a proposal still lies on `room`'s offer area (or on that of a
/// room behind it).
pub fn offer_pending(rooms: &Rooms, pieces: &[Piece], room: RoomId) -> (r: bool)
    requires
        rooms.wf(),
    ensures
        r == spec_offer_pending(*rooms, pieces@, room),
{
    let mut i: usize = 0;
    while i < pieces.len()
        invariant
            rooms.wf(),
            i <= pieces@.len(),
            forall|k: int| 0 <= k < i ==> !offered_behind(*rooms, room, #[trigger] pieces@[k]),
        decreases pieces@.len() - i,
    {
        if let Loc::Hold { room: at, x, y } = pieces[i].loc {
            if rooms.beyond(room, at) && rooms.tile(at, x, y) == Some(Tile::Offer) {
                assert(offered_behind(*rooms, room, pieces@[i as int]));
                return true;
            }
        }
        i = i + 1;
    }
    false
}

/// The gangway law's detach gates: nothing detaches while it holds
/// something of the player's; nothing of the player's detaches while it
/// holds a crew body (`occupied` names the room each body is in); and a
/// proposal on its offer area holds it too.
pub fn part_check(rooms: &Rooms, pieces: &[Piece], occupied: &[RoomId], room: RoomId) -> (r: Result<(), Refusal>)
    requires
        rooms.wf(),
    ensures
        r == spec_part_check(*rooms, pieces@, occupied@, room),
{
    if room == CABIN {
        return Err(Refusal::Root);
    }
    if rooms.get(room).is_none() {
        return Err(Refusal::Absent);
    }
    let mut j: usize = 0;
    while j < occupied.len()
        invariant
            rooms.wf(),
            room != CABIN,
            rooms.present(room as int),
            j <= occupied@.len(),
            forall|k: int| 0 <= k < j ==> !behind(*rooms, room, #[trigger] occupied@[k]),
        decreases occupied@.len() - j,
    {
        if rooms.beyond(room, occupied[j]) {
            assert(behind(*rooms, room, occupied@[j as int]));
            return Err(Refusal::Aboard);
        }
        j = j + 1;
    }
    let mut i: usize = 0;
    while i < pieces.len()
        invariant
            rooms.wf(),
            room != CABIN,
            rooms.present(room as int),
            forall|k: int| 0 <= k < occupied@.len() ==> !behind(*rooms, room, #[trigger] occupied@[k]),
            i <= pieces@.len(),
            forall|k: int| 0 <= k < i ==> !strands(*rooms, pieces@, room, #[trigger] pieces@[k]),
        decreases pieces@.len() - i,
    {
        let piece = pieces[i];
        if let Some(at) = piece.loc.room(pieces) {
            if rooms.beyond(room, at) && player_owned(rooms, pieces, piece.loc) {
                assert(strands(*rooms, pieces@, room, pieces@[i as int]));
                return Err(Refusal::Cargo);
            }
        }
        i = i + 1;
    }
    if offer_pending(rooms, pieces, room) {
        return Err(Refusal::Pending);
    }
    Ok(())
}

/// The gangway law's launch gate: the lever refuses unless every crew
/// body is in a riding room, nothing of the player's rests in a calling
/// room, every attached trade room's offer is resolved, and no unresolved
/// event room is attached.
pub fn launch_gate(rooms: &Rooms, pieces: &[Piece], occupied: &[RoomId]) -> (r: Result<(), Refusal>)
    requires
        rooms.wf(),
    ensures
        r == spec_launch_gate(*rooms, pieces@, occupied@),
{
    let mut j: usize = 0;
    while j < occupied.len()
        invariant
            j <= occupied@.len(),
            forall|k: int| 0 <= k < j ==> rooms.riding_at(#[trigger] occupied@[k] as int),
        decreases occupied@.len() - j,
    {
        if !rooms.riding(occupied[j]) {
            return Err(Refusal::Aboard);
        }
        j = j + 1;
    }
    let mut i: usize = 0;
    while i < pieces.len()
        invariant
            forall|k: int| 0 <= k < occupied@.len() ==> rooms.riding_at(#[trigger] occupied@[k] as int),
            i <= pieces@.len(),
            forall|k: int| 0 <= k < i ==> !left_ashore(*rooms, pieces@, #[trigger] pieces@[k]),
        decreases pieces@.len() - i,
    {
        let piece = pieces[i];
        if let Some(at) = piece.loc.room(pieces) {
            if !rooms.riding(at) && player_owned(rooms, pieces, piece.loc) {
                assert(left_ashore(*rooms, pieces@, pieces@[i as int]));
                return Err(Refusal::Cargo);
            }
        }
        i = i + 1;
    }
    let mut id: u8 = 0;
    while (id as usize) < MAX_ROOMS
        invariant
            rooms.wf(),
            forall|k: int| 0 <= k < occupied@.len() ==> rooms.riding_at(#[trigger] occupied@[k] as int),
            forall|k: int| 0 <= k < pieces@.len() ==> !left_ashore(*rooms, pieces@, #[trigger] pieces@[k]),
            id <= MAX_ROOMS,
            forall|k: int| 0 <= k < id ==> !#[trigger] unresolved(*rooms, pieces@, k),
        decreases MAX_ROOMS - id,
    {
        let pending = match rooms.kind(id) {
            Some(RoomKind::Trade) => offer_pending(rooms, pieces, id),
            Some(RoomKind::Wreck) | Some(RoomKind::Parlor) | Some(RoomKind::Pump) => true,
            _ => false,
        };
        if pending {
            assert(unresolved(*rooms, pieces@, id as int));
            return Err(Refusal::Pending);
        }
        id = id + 1;
    }
    Ok(())
}

/// Which classes of berth would take `piece` from the player's hands:
/// the exits that would certainly refuse it do not glow, so the
/// invitation and the arbiter agree.
pub fn drop_targets(rooms: &Rooms, pieces: &[Piece], piece: &Piece) -> (r: DropTargets)
    ensures
        r == spec_drop_targets(*rooms, pieces@, *piece),
{
    let ours = player_owned(rooms, pieces, piece.loc);
    let vital = last_vital_aboard(rooms, pieces, piece);
    let mut cubby = false;
    if ours && stowable(piece.kind) {
        let mut i: usize = 0;
        while i < pieces.len() && !cubby
            invariant
                i <= pieces@.len(),
                cubby ==> exists|k: int| 0 <= k < pieces@.len() && takes_into_cubby(pieces@, *piece, #[trigger] pieces@[k]),
                !cubby ==> forall|k: int| 0 <= k < i ==> !takes_into_cubby(pieces@, *piece, #[trigger] pieces@[k]),
            decreases pieces@.len() - i,
        {
            let other = pieces[i];
            if other.id != piece.id && other.kind == Kind::Cabinet && matches!(other.loc, Loc::Hold { .. }) {
                let free = free_cubby(pieces, other.id);
                if let Some(t) = free {
                    assert(!cubby_taken(pieces@, other.id, t as int));
                    assert(takes_into_cubby(pieces@, *piece, pieces@[i as int]));
                    cubby = true;
                }
            }
            i = i + 1;
        }
    }
    let mut caller = false;
    let mut id: u8 = 0;
    while (id as usize) < MAX_ROOMS && !caller
        invariant
            id <= MAX_ROOMS,
            caller ==> caller_alongside(*rooms),
            !caller ==> forall|k: int| 0 <= k < id ==> !#[trigger] calls_at(*rooms, k),
        decreases MAX_ROOMS - id,
    {
        if let Some(kind) = rooms.kind(id) {
            if !kind.riding() {
                assert(calls_at(*rooms, id as int));
                caller = true;
            }
        }
        id = id + 1;
    }
    DropTargets {
        berth: ours,
        stow: ours && stowable(piece.kind) && cubby,
        offer: ours && !vital && caller,
        consume: ours && !vital && piece.kind != Kind::SuspiciousCrate,
    }
}

/// A seam that could strand anything refuses to part: when the detach
/// gates allow it, the room is no longer the cabin and is attached, no crew
/// body and nothing of the player's is in it or behind it, and no
/// proposal waits on its offer area.
pub proof fn lemma_parting_strands_nothing(rooms: Rooms, pieces: Seq<Piece>, occupied: Seq<RoomId>, room: RoomId)
    requires
        spec_part_check(rooms, pieces, occupied, room) is Ok,
    ensures
        room != CABIN,
        rooms.present(room as int),
        forall|j: int| 0 <= j < occupied.len() ==> !behind(rooms, room, #[trigger] occupied[j]),
        forall|i: int| 0 <= i < pieces.len() ==> !strands(rooms, pieces, room, #[trigger] pieces[i]),
        !spec_offer_pending(rooms, pieces, room),
{
}

/// A cast-off strands neither crew nor cargo: once the lever is allowed,
/// every crew body rides, nothing of the player's rests in a calling
/// room, and no attached room has business left.
pub proof fn lemma_launch_leaves_nothing(rooms: Rooms, pieces: Seq<Piece>, occupied: Seq<RoomId>)
    requires
        spec_launch_gate(rooms, pieces, occupied) is Ok,
    ensures
        forall|j: int| 0 <= j < occupied.len() ==> rooms.riding_at(#[trigger] occupied[j] as int),
        forall|i: int| 0 <= i < pieces.len() ==> !left_ashore(rooms, pieces, #[trigger] pieces[i]),
        forall|id: int| 0 <= id < MAX_ROOMS ==> !#[trigger] unresolved(rooms, pieces, id),
{
}

/// Whether piece `p` goes with room `room` when it parts: it is berthed
/// in the room or behind it.
pub open spec fn goes_with(rooms: Rooms, pieces: Seq<Piece>, room: RoomId, p: Piece) -> bool {
    berth_room(pieces, p) matches Some(at) && behind(rooms, room, at)
}

/// Whether some piece going with `room` carries id `id`.
pub open spec fn id_goes(rooms: Rooms, pieces: Seq<Piece>, room: RoomId, id: u32) -> bool {
    exists|i: int| 0 <= i < pieces.len() && #[trigger] pieces[i].id == id && goes_with(rooms, pieces, room, pieces[i])
}

/// The test a piece passes to stay aboard when `room` parts.
pub open spec fn stays_piece(rooms: Rooms, pieces: Seq<Piece>, room: RoomId) -> spec_fn(Piece) -> bool {
    |p: Piece| !id_goes(rooms, pieces, room, p.id)
}

/// The test a mark passes to stay when `room` parts.
pub open spec fn stays_mark(rooms: Rooms, pieces: Seq<Piece>, room: RoomId) -> spec_fn(u32) -> bool {
    |id: u32| !id_goes(rooms, pieces, room, id)
}

/// The ids of the pieces that go with `room` when it parts.
fn doomed_ids(rooms: &Rooms, pieces: &[Piece], room: RoomId) -> (r: Vec<u32>)
    requires
        rooms.wf(),
    ensures
        forall|id: u32| r@.contains(id) <==> id_goes(*rooms, pieces@, room, id),
{
    let mut out: Vec<u32> = Vec::new();
    let mut i: usize = 0;
    while i < pieces.len()
        invariant
            rooms.wf(),
            i <= pieces@.len(),
            forall|id: u32|
                out@.contains(id) <==> exists|k: int|
                    0 <= k < i && #[trigger] pieces@[k].id == id && goes_with(*rooms, pieces@, room, pieces@[k]),
        decreases pieces@.len() - i,
    {
        let piece = pieces[i];
        let ghost before = out@;
        let going = match piece.loc.room(pieces) {
            Some(at) => rooms.beyond(room, at),
            None => false,
        };
        if going {
            out.push(piece.id);
        }
        proof {
            assert forall|id: u32|
                out@.contains(id) <==> exists|k: int|
                    0 <= k < i + 1 && #[trigger] pieces@[k].id == id && goes_with(*rooms, pieces@, room, pieces@[k]) by {
                if out@.contains(id) {
                    if before.contains(id) {
                        let k = choose|k: int|
                            0 <= k < i && #[trigger] pieces@[k].id == id && goes_with(*rooms, pieces@, room, pieces@[k]);
                        assert(0 <= k < i + 1);
                    } else {
                        let j = choose|j: int| 0 <= j < out@.len() && out@[j] == id;
                        if j < before.len() {
                            assert(before[j] == id);
                        }
                        assert(pieces@[i as int].id == id);
                    }
                }
                if exists|k: int|
                    0 <= k < i + 1 && #[trigger] pieces@[k].id == id && goes_with(*rooms, pieces@, room, pieces@[k]) {
                    let k = choose|k: int|
                        0 <= k < i + 1 && #[trigger] pieces@[k].id == id && goes_with(*rooms, pieces@, room, pieces@[k]);
                    if k < i {
                        assert(before.contains(id));
                        let j = choose|j: int| 0 <= j < before.len() && before[j] == id;
                        assert(out@[j] == id);
                    } else {
                        assert(out@[out@.len() - 1] == id);
                    }
                }
            }
        }
        i = i + 1;
    }
    out
}

/// Whether `ids` holds `id`.
fn holds_id(ids: &Vec<u32>, id: u32) -> (r: bool)
    ensures
        r == ids@.contains(id),
{
    let mut i: usize = 0;
    while i < ids.len()
        invariant
            i <= ids@.len(),
            forall|j: int| 0 <= j < i ==> ids@[j] != id,
        decreases ids@.len() - i,
    {
        if ids[i] == id {
            return true;
        }
        i = i + 1;
    }
    false
}

/// The rooms behind `room`, `room` itself among them when attached.
fn rooms_behind(rooms: &Rooms, room: RoomId) -> (r: Vec<RoomId>)
    requires
        rooms.wf(),
    ensures
        forall|id: int|
            0 <= id < MAX_ROOMS ==> (r@.contains(id as RoomId) <==> rooms.present(id) && behind(*rooms, room, id as RoomId)),
        forall|k: int| 0 <= k < r@.len() ==> (#[trigger] r@[k] as int) < MAX_ROOMS,
        forall|a: int, b: int| 0 <= a < b < r@.len() ==> r@[a] < r@[b],
{
    let mut out: Vec<RoomId> = Vec::new();
    let mut id: u8 = 0;
    while (id as usize) < MAX_ROOMS
        invariant
            rooms.wf(),
            id <= MAX_ROOMS,
            forall|k: int| 0 <= k < out@.len() ==> (#[trigger] out@[k] as int) < id,
            forall|a: int, b: int| 0 <= a < b < out@.len() ==> out@[a] < out@[b],
            forall|j: int|
                0 <= j < id ==> (out@.contains(j as RoomId) <==> rooms.present(j) && behind(*rooms, room, j as RoomId)),
        decreases MAX_ROOMS - id,
    {
        let ghost before = out@;
        if rooms.get(id).is_some() && rooms.beyond(room, id) {
            out.push(id);
            proof {
                assert forall|j: int|
                    0 <= j < id + 1 implies (out@.contains(j as RoomId) <==> rooms.present(j) && behind(
                        *rooms,
                        room,
                        j as RoomId,
                    )) by {
                    if j < id {
                        if before.contains(j as RoomId) {
                            let k = choose|k: int| 0 <= k < before.len() && before[k] == j as RoomId;
                            assert(out@[k] == j as RoomId);
                        }
                        if out@.contains(j as RoomId) {
                            let k = choose|k: int| 0 <= k < out@.len() && out@[k] == j as RoomId;
                            if k == before.len() {
                                assert(out@[k] == id);
                            } else {
                                assert(before[k] == j as RoomId);
                            }
                        }
                    } else {
                        assert(out@[out@.len() - 1] == id);
                    }
                }
            }
        } else {
            proof {
                assert forall|j: int|
                    0 <= j < id + 1 implies (out@.contains(j as RoomId) <==> rooms.present(j) && behind(
                        *rooms,
                        room,
                        j as RoomId,
                    )) by {
                    if j == id && out@.contains(j as RoomId) {
                        let k = choose|k: int| 0 <= k < out@.len() && out@[k] == j as RoomId;
                        assert(out@[k] < id);
                    }
                }
            }
        }
        id = id + 1;
    }
    out
}

/// Cut `room` loose, and let whatever stands in it or behind it go with
/// it: those pieces leave the board, their marks and any crew member's
/// carry of them drop, and every room behind it detaches. Run it only
/// once [`part_check`] allowed it, so nothing of the player's goes.
pub fn part(
    rooms: &mut Rooms,
    pieces: &mut Vec<Piece>,
    marks: &mut Vec<u32>,
    held: &mut Vec<Option<Held>>,
    room: RoomId,
)
    requires
        old(rooms).wf(),
        room != CABIN,
    ensures
        final(rooms).wf(),
        !behind(*old(rooms), room, CABIN),
        final(rooms).kind_at(CABIN as int) == old(rooms).kind_at(CABIN as int),
        forall|id: int|
            0 <= id < MAX_ROOMS ==> #[trigger] final(rooms).present(id) == (old(rooms).present(id) && !behind(
                *old(rooms),
                room,
                id as RoomId,
            )),
        final(pieces)@ == old(pieces)@.filter(stays_piece(*old(rooms), old(pieces)@, room)),
        final(marks)@ == old(marks)@.filter(stays_mark(*old(rooms), old(pieces)@, room)),
        final(held)@.len() == old(held)@.len(),
        forall|k: int|
            0 <= k < old(held)@.len() ==> #[trigger] final(held)@[k] == if old(held)@[k] matches Some(h) && id_goes(
                *old(rooms),
                old(pieces)@,
                room,
                h.piece,
            ) {
                None
            } else {
                old(held)@[k]
            },
{
    let ghost r0 = *rooms;
    let ghost p0 = pieces@;
    let doomed = doomed_ids(rooms, pieces.as_slice(), room);
    let ghost keep = stays_piece(r0, p0, room);
    let mut kept: Vec<Piece> = Vec::new();
    let mut i: usize = 0;
    while i < pieces.len()
        invariant
            pieces@ == p0,
            i <= p0.len(),
            keep == stays_piece(r0, p0, room),
            forall|id: u32| doomed@.contains(id) <==> id_goes(r0, p0, room, id),
            kept@ == p0.take(i as int).filter(keep),
        decreases p0.len() - i,
    {
        let piece = pieces[i];
        proof {
            reveal(Seq::filter);
            assert(p0.take(i + 1).drop_last() =~= p0.take(i as int));
            assert(p0.take(i + 1).last() == piece);
        }
        if !holds_id(&doomed, piece.id) {
            kept.push(piece);
        }
        i = i + 1;
    }
    proof {
        assert(p0.take(p0.len() as int) =~= p0);
    }
    *pieces = kept;
    let ghost m0 = marks@;
    let ghost keep_mark = stays_mark(r0, p0, room);
    let mut kept_marks: Vec<u32> = Vec::new();
    let mut i: usize = 0;
    while i < marks.len()
        invariant
            marks@ == m0,
            i <= m0.len(),
            keep_mark == stays_mark(r0, p0, room),
            forall|id: u32| doomed@.contains(id) <==> id_goes(r0, p0, room, id),
            kept_marks@ == m0.take(i as int).filter(keep_mark),
        decreases m0.len() - i,
    {
        let id = marks[i];
        proof {
            reveal(Seq::filter);
            assert(m0.take(i + 1).drop_last() =~= m0.take(i as int));
            assert(m0.take(i + 1).last() == id);
        }
        if !holds_id(&doomed, id) {
            kept_marks.push(id);
        }
        i = i + 1;
    }
    proof {
        assert(m0.take(m0.len() as int) =~= m0);
    }
    *marks = kept_marks;
    let ghost h0 = held@;
    let mut k: usize = 0;
    while k < held.len()
        invariant
            held@.len() == h0.len(),
            k <= h0.len(),
            forall|id: u32| doomed@.contains(id) <==> id_goes(r0, p0, room, id),
            forall|j: int| k <= j < h0.len() ==> #[trigger] held@[j] == h0[j],
            forall|j: int|
                0 <= j < k ==> #[trigger] held@[j] == if h0[j] matches Some(h) && id_goes(r0, p0, room, h.piece) {
                    None
                } else {
                    h0[j]
                },
        decreases h0.len() - k,
    {
        if let Some(h) = held[k] {
            if holds_id(&doomed, h.piece) {
                held.set(k, None);
            }
        }
        k = k + 1;
    }
    let gone = rooms_behind(rooms, room);
    proof {
        r0.lemma_cabin_present();
        assert(r0.reach_in(room, 0, CABIN as int));
        assert(!behind(r0, room, CABIN));
    }
    let mut g: usize = 0;
    while g < gone.len()
        invariant
            rooms.wf(),
            g <= gone@.len(),
            !behind(r0, room, CABIN),
            rooms.kind_at(CABIN as int) == r0.kind_at(CABIN as int),
            forall|k: int| 0 <= k < gone@.len() ==> (#[trigger] gone@[k] as int) < MAX_ROOMS,
            forall|id: int|
                0 <= id < MAX_ROOMS ==> (gone@.contains(id as RoomId) <==> r0.present(id) && behind(r0, room, id as RoomId)),
            forall|a: int, b: int| 0 <= a < b < gone@.len() ==> gone@[a] < gone@[b],
            forall|id: int|
                0 <= id < MAX_ROOMS ==> #[trigger] rooms.present(id) == (r0.present(id) && !gone@.take(g as int).contains(
                    id as RoomId,
                )),
        decreases gone@.len() - g,
    {
        let ghost before = *rooms;
        let id = gone[g];
        proof {
            assert(gone@.contains(id));
            assert(id != CABIN);
            assert(!gone@.take(g as int).contains(id)) by {
                if gone@.take(g as int).contains(id) {
                    let k = choose|k: int| 0 <= k < g && gone@.take(g as int)[k] == id;
                    assert(gone@[k] < gone@[g as int]);
                }
            }
            assert(before.present(id as int));
        }
        let _ = rooms.detach(id);
        proof {
            before.lemma_cabin_present();
            assert(rooms.room_at(CABIN as int)->0.kind == before.room_at(CABIN as int)->0.kind);
            assert(rooms.present(CABIN as int));
            assert forall|j: int| 0 <= j < MAX_ROOMS implies #[trigger] rooms.present(j) == (r0.present(j)
                && !gone@.take(g + 1).contains(j as RoomId)) by {
                assert(gone@.take(g + 1) =~= gone@.take(g as int).push(id));
                if j == id as int {
                    assert(gone@.take(g + 1)[g as int] == id);
                } else {
                    assert(!gone@.take(g + 1).contains(j as RoomId) <==> !gone@.take(g as int).contains(j as RoomId));
                }
            }
        }
        g = g + 1;
    }
    proof {
        assert(gone@.take(gone@.len() as int) =~= gone@);
        assert forall|id: int| 0 <= id < MAX_ROOMS implies #[trigger] rooms.present(id) == (r0.present(id) && !behind(
            r0,
            room,
            id as RoomId,
        )) by {}
    }
}

/// Nothing of the player's leaves through a parting: once the detach
/// gates allow it, every piece of the player's stays on the board.
pub proof fn lemma_parting_keeps_the_players_cargo(
    rooms: Rooms,
    pieces: Seq<Piece>,
    occupied: Seq<RoomId>,
    room: RoomId,
    p: Piece,
)
    requires
        spec_part_check(rooms, pieces, occupied, room) is Ok,
        pieces.contains(p),
        spec_player_owned(rooms, p.loc),
        forall|a: int, b: int| 0 <= a < b < pieces.len() ==> pieces[a].id != pieces[b].id,
    ensures
        pieces.filter(stays_piece(rooms, pieces, room)).contains(p),
{
    let i = choose|i: int| 0 <= i < pieces.len() && pieces[i] == p;
    if id_goes(rooms, pieces, room, p.id) {
        let k = choose|k: int|
            0 <= k < pieces.len() && #[trigger] pieces[k].id == p.id && goes_with(rooms, pieces, room, pieces[k]);
        assert(k == i);
        assert(strands(rooms, pieces, room, pieces[i]));
    }
    pieces.lemma_filter_contains(stays_piece(rooms, pieces, room), i);
}

/// Whether `other` is a standing cabinet under the pointer that a
/// one-cell `piece` reaches for: not the piece itself, and among the
/// `pointed` pieces.
pub open spec fn reaches_for(piece: Piece, pointed: Seq<u32>, other: Piece) -> bool {
    &&& other.id != piece.id
    &&& other.kind == Kind::Cabinet
    &&& other.loc is Hold
    &&& pointed.contains(other.id)
}

/// The first cabinet, in board order, that a drop of `piece` reaches
/// for, from index `i` on.
pub open spec fn host_from(pieces: Seq<Piece>, piece: Piece, pointed: Seq<u32>, i: int) -> Option<Piece>
    decreases pieces.len() - i,
{
    if i < 0 || i >= pieces.len() {
        None
    } else if reaches_for(piece, pointed, pieces[i]) {
        Some(pieces[i])
    } else {
        host_from(pieces, piece, pointed, i + 1)
    }
}

/// Where dropping `piece` over net cell `target` settles it, with the
/// pieces whose outline the pointer is inside listed in `pointed` — or
/// which flavour of refusal it earns: `Err(Some(rule))` is the hard
/// reject that names a stowage rule, `Err(None)` the soft miss that
/// snaps the piece home.
pub open spec fn spec_resolve_drop(
    rooms: Rooms,
    pieces: Seq<Piece>,
    piece: Piece,
    target: Option<(RoomId, u8, u8)>,
    pointed: Seq<u32>,
) -> Result<Loc, Option<Violation>> {
    match target {
        None => Err(None),
        Some((room, x, y)) => match rooms.tile_at(room as int, x as int, y as int) {
            None => Err(None),
            Some(tile) => if !spec_player_owned(rooms, piece.loc) {
                Err(None)
            } else if tile == Tile::Threshold {
                Err(Some(Violation::Threshold))
            } else if tile == Tile::Stock {
                Err(None)
            } else if (tile == Tile::Offer || tile == Tile::Consume) && spec_last_vital(rooms, pieces, piece) {
                Err(Some(Violation::Vital))
            } else if tile == Tile::Consume && piece.kind == Kind::SuspiciousCrate {
                Err(Some(Violation::Suspicious))
            } else if piece.kind.spec_extent().0 == 1 && piece.kind.spec_extent().2 == 1 && host_from(
                pieces,
                piece,
                pointed,
                0,
            ) is Some {
                let host = host_from(pieces, piece, pointed, 0)->0;
                if !spec_stowable(piece.kind) {
                    Err(
                        Some(
                            if piece.kind.spec_tag() == Some(Tag::Suspicious) {
                                Violation::Suspicious
                            } else {
                                Violation::Cryo
                            },
                        ),
                    )
                } else if has_free_cubby(pieces, host.id) {
                    Ok(Loc::Stow { cabinet: host.id, slot: first_free_cubby(pieces, host.id) })
                } else {
                    Err(Some(Violation::Occupied))
                }
            } else if piece.kind.spec_covering() {
                match spec_dressing(rooms, pieces, piece.id, piece.kind, room, x, y) {
                    Ok(()) => Ok(Loc::Laid { room, x, y }),
                    Err(v) => Err(Some(v)),
                }
            } else {
                match spec_placement(rooms, pieces, piece.id, piece.kind, room, x, y) {
                    Ok(()) => Ok(Loc::Hold { room, x, y }),
                    Err(v) => Err(Some(v)),
                }
            },
        },
    }
}

/// The lowest free cubby of cabinet `cabinet`.
pub open spec fn first_free_cubby(pieces: Seq<Piece>, cabinet: u32) -> u8 {
    choose|s: u8|
        s < CABINET_SLOTS && !cubby_taken(pieces, cabinet, s as int) && forall|t: int|
            0 <= t < s ==> cubby_taken(pieces, cabinet, t)
}

/// The first cabinet a drop of `piece` reaches for.
fn find_host(pieces: &[Piece], piece: &Piece, pointed: &[u32]) -> (r: Option<Piece>)
    ensures
        r == host_from(pieces@, *piece, pointed@, 0),
{
    let mut i: usize = 0;
    while i < pieces.len()
        invariant
            i <= pieces@.len(),
            host_from(pieces@, *piece, pointed@, 0) == host_from(pieces@, *piece, pointed@, i as int),
        decreases pieces@.len() - i,
    {
        let other = pieces[i];
        if other.id != piece.id && other.kind == Kind::Cabinet && matches!(other.loc, Loc::Hold { .. }) {
            let mut under = false;
            let mut j: usize = 0;
            while j < pointed.len()
                invariant
                    j <= pointed@.len(),
                    under == exists|k: int| 0 <= k < j && pointed@[k] == other.id,
                decreases pointed@.len() - j,
            {
                if pointed[j] == other.id {
                    under = true;
                }
                j = j + 1;
            }
            if under {
                return Some(other);
            }
        }
        i = i + 1;
    }
    None
}

/// **The last chart tank or launch lever refuses every exit**: a
/// player's chart tank or launch lever with no other of its kind still
/// staying aboard is refused, as vital, when dropped on an offer or a
/// consume tile, and neither of those targets glows for it.
pub proof fn lemma_last_instrument_stays(
    rooms: Rooms,
    pieces: Seq<Piece>,
    piece: Piece,
    room: RoomId,
    x: u8,
    y: u8,
    pointed: Seq<u32>,
)
    requires
        piece.kind == Kind::ChartTank || piece.kind == Kind::LaunchLever,
        spec_player_owned(rooms, piece.loc),
        forall|i: int|
            0 <= i < pieces.len() && (#[trigger] pieces[i]).id != piece.id && pieces[i].kind == piece.kind
                ==> !spec_staying(rooms, pieces[i]),
    ensures
        rooms.tile_at(room as int, x as int, y as int) == Some(Tile::Offer) || rooms.tile_at(
            room as int,
            x as int,
            y as int,
        ) == Some(Tile::Consume) ==> spec_resolve_drop(rooms, pieces, piece, Some((room, x, y)), pointed) == Err::<
            Loc,
            Option<Violation>,
        >(Some(Violation::Vital)),
        !spec_drop_targets(rooms, pieces, piece).offer,
        !spec_drop_targets(rooms, pieces, piece).consume,
{
    assert(spec_last_vital(rooms, pieces, piece));
}

/// **An event room alongside holds the ship**: while a wreck, a parlor
/// or a gas station's pump bay is attached, the launch gate never
/// opens; it refuses as pending, unless a crew body ashore or cargo left
/// in a calling room refuses it first.
pub proof fn lemma_event_room_holds_launch(rooms: Rooms, pieces: Seq<Piece>, occupied: Seq<RoomId>, id: int)
    requires
        0 <= id < MAX_ROOMS,
        rooms.kind_at(id) == Some(RoomKind::Wreck) || rooms.kind_at(id) == Some(RoomKind::Parlor)
            || rooms.kind_at(id) == Some(RoomKind::Pump),
    ensures
        spec_launch_gate(rooms, pieces, occupied) == Err::<(), Refusal>(Refusal::Aboard) || spec_launch_gate(
            rooms,
            pieces,
            occupied,
        ) == Err::<(), Refusal>(Refusal::Cargo) || spec_launch_gate(rooms, pieces, occupied) == Err::<(), Refusal>(
            Refusal::Pending,
        ),
{
    assert(unresolved(rooms, pieces, id));
}

/// Where dropping `piece` over net cell `target` settles it — `pointed`
/// lists the pieces whose outline the pointer is inside — or which
/// flavour of refusal it earns. `Err(Some(rule))` is the hard reject, a
/// stowage rule that refused the drop, named; `Err(None)` is a soft miss
/// that snaps the piece home. A room's own goods never move by a drop:
/// ownership crosses only at a handshake. Every arm gates on the tile
/// class, the same reading [`drop_targets`] advertises from.
pub fn resolve_drop(
    rooms: &Rooms,
    pieces: &[Piece],
    piece: &Piece,
    target: Option<(RoomId, u8, u8)>,
    pointed: &[u32],
) -> (r: Result<Loc, Option<Violation>>)
    ensures
        r == spec_resolve_drop(*rooms, pieces@, *piece, target, pointed@),
{
    let (room, x, y) = match target {
        Some(t) => t,
        None => return Err(None),
    };
    let tile = match rooms.tile(room, x, y) {
        Some(t) => t,
        None => return Err(None),
    };
    if !player_owned(rooms, pieces, piece.loc) {
        return Err(None);
    }
    if tile == Tile::Threshold {
        return Err(Some(Violation::Threshold));
    }
    if tile == Tile::Stock {
        return Err(None);
    }
    if tile == Tile::Offer || tile == Tile::Consume {
        if last_vital_aboard(rooms, pieces, piece) {
            return Err(Some(Violation::Vital));
        }
        if tile == Tile::Consume && piece.kind == Kind::SuspiciousCrate {
            return Err(Some(Violation::Suspicious));
        }
    }
    let face = piece.kind.upright();
    if face.0 == 1 && face.1 == 1 {
        if let Some(host) = find_host(pieces, piece, pointed) {
            if !stowable(piece.kind) {
                let violation = match piece.kind.tag() {
                    Some(Tag::Suspicious) => Violation::Suspicious,
                    _ => Violation::Cryo,
                };
                return Err(Some(violation));
            }
            return match free_cubby(pieces, host.id) {
                Some(slot) => {
                    proof {
                        assert(!cubby_taken(pieces@, host.id, slot as int));
                        let other = first_free_cubby(pieces@, host.id);
                        assert(other < CABINET_SLOTS && !cubby_taken(pieces@, host.id, other as int));
                        if other < slot {
                            assert(cubby_taken(pieces@, host.id, other as int));
                        } else if slot < other {
                            assert(cubby_taken(pieces@, host.id, slot as int));
                        }
                    }
                    Ok(Loc::Stow { cabinet: host.id, slot })
                },
                None => {
                    proof {
                        if has_free_cubby(pieces@, host.id) {
                            let t = choose|t: int| 0 <= t < CABINET_SLOTS && !#[trigger] cubby_taken(pieces@, host.id, t);
                            assert(cubby_taken(pieces@, host.id, t));
                        }
                    }
                    Err(Some(Violation::Occupied))
                },
            };
        }
    }
    if piece.kind.covering() {
        return match dressing_check(rooms, pieces, piece.id, piece.kind, room, x, y) {
            Ok(()) => Ok(Loc::Laid { room, x, y }),
            Err(v) => Err(Some(v)),
        };
    }
    match placement_check(rooms, pieces, piece.id, piece.kind, room, x, y) {
        Ok(()) => Ok(Loc::Hold { room, x, y }),
        Err(v) => Err(Some(v)),
    }
}

/// **The invitation and the arbiter agree**: wherever a drop lands, the
/// berth class it lands in glowed for that piece — an ordinary cell or a
/// dressing under `berth`, a cubby under `stow`, the fire under
/// `consume`, and an offer area under `offer` once a calling room holds
/// it.
pub proof fn lemma_drops_land_where_invited(
    rooms: Rooms,
    pieces: Seq<Piece>,
    piece: Piece,
    room: RoomId,
    x: u8,
    y: u8,
    pointed: Seq<u32>,
)
    requires
        rooms.wf(),
        spec_resolve_drop(rooms, pieces, piece, Some((room, x, y)), pointed) is Ok,
    ensures
        spec_drop_targets(rooms, pieces, piece).berth,
        spec_resolve_drop(rooms, pieces, piece, Some((room, x, y)), pointed)->Ok_0 is Stow ==> spec_drop_targets(
            rooms,
            pieces,
            piece,
        ).stow,
        rooms.tile_at(room as int, x as int, y as int) == Some(Tile::Consume) ==> spec_drop_targets(
            rooms,
            pieces,
            piece,
        ).consume,
        rooms.tile_at(room as int, x as int, y as int) == Some(Tile::Offer) && calls_at(rooms, room as int)
            ==> spec_drop_targets(rooms, pieces, piece).offer,
{
    let r = spec_resolve_drop(rooms, pieces, piece, Some((room, x, y)), pointed);
    if calls_at(rooms, room as int) {
        rooms.lemma_placed(room as int);
        assert(calls_at(rooms, room as int));
    }
    if r->Ok_0 is Stow {
        let host = host_from(pieces, piece, pointed, 0)->0;
        lemma_host_on_board(pieces, piece, pointed, 0);
        let i = choose|i: int| 0 <= i < pieces.len() && pieces[i] == host;
        assert(takes_into_cubby(pieces, piece, pieces[i]));
    }
}

/// The cabinet a drop reaches for stands on the board.
proof fn lemma_host_on_board(pieces: Seq<Piece>, piece: Piece, pointed: Seq<u32>, i: int)
    ensures
        host_from(pieces, piece, pointed, i) matches Some(h) ==> reaches_for(piece, pointed, h) && exists|k: int|
            0 <= k < pieces.len() && pieces[k] == h,
    decreases pieces.len() - i,
{
    if 0 <= i < pieces.len() && !reaches_for(piece, pointed, pieces[i]) {
        lemma_host_on_board(pieces, piece, pointed, i + 1);
    }
}

} // verus!
