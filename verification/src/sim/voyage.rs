//! The ship between ports: one fixed step of a run, the arrival a leg
//! ends in, catching up on elapsed time, and the inner ring's transit
//! papers. Where the ship is drawn on the sky is floating point and
//! stays with the frontend.

use vstd::prelude::*;
use crate::sim::{Held, part, splitmix, spec_splitmix};
use crate::sim::cargo::{Kind, Loc, Piece, Tag, first_with_id, lemma_first_with_id_in};
use crate::sim::encounter::{EncounterKind, Encounters, Signal, encounter_step};
use crate::sim::event::{OMEN_LEAD_TICKS, OMEN_LEG_REACH, OMEN_TAIL_TICKS, OmenSignal, Phase, creak, omen_step, phase_ok};
use crate::sim::map::{COMET, GUILD, INNER_RING, POI_COUNT, PoiId, ShipState, WANDERER};
use crate::sim::rats::{RatSignal, TICK_REACH, berths_in_range};
use crate::sim::room::{CABIN, Refusal, RoomId, RoomKind, Rooms};
use crate::sim::run::{Run, lemma_stock_grows, open_trade, stock_in};
use crate::sim::underway::{
    STOKE_PERIOD, STOKE_PER_FLAM, breed_fluffs, feed_burner, spawn_in_hold, spec_hopper, steal_crate, strays_in,
    strays_of, walk_aboard, walked, watching, without_id,
};

verus! {

// ---------------------------------------------------------------------
// Transit papers
// ---------------------------------------------------------------------

/// Whether `id` is one of the inner-ring worlds.
pub open spec fn in_inner_ring(id: PoiId) -> bool {
    INNER_RING@.contains(id)
}

/// Whether `id` is one of the inner-ring worlds.
fn inner(id: PoiId) -> (r: bool)
    ensures
        r == in_inner_ring(id),
{
    let mut k: usize = 0;
    while k < 3
        invariant
            k <= 3,
            INNER_RING@.len() == 3,
            forall|j: int| 0 <= j < k ==> INNER_RING@[j] != id,
        decreases 3 - k,
    {
        if INNER_RING[k] == id {
            assert(INNER_RING@[k as int] == id);
            return true;
        }
        k = k + 1;
    }
    false
}

/// Whether a transit chit stands in a room that travels with the ship.
pub open spec fn chit_aboard(rooms: Rooms, pieces: Seq<Piece>) -> bool {
    exists|i: int|
        0 <= i < pieces.len() && (#[trigger] pieces[i]).kind == Kind::TransitChit && (pieces[i].loc matches Loc::Hold {
            room,
            ..
        } && rooms.riding_at(room as int))
}

/// Whether a transit chit stands in a room that travels with the ship.
pub fn transit_chit_aboard(rooms: &Rooms, pieces: &[Piece]) -> (r: bool)
    ensures
        r == chit_aboard(*rooms, pieces@),
{
    let mut i: usize = 0;
    while i < pieces.len()
        invariant
            i <= pieces@.len(),
            forall|j: int|
                0 <= j < i ==> !((#[trigger] pieces@[j]).kind == Kind::TransitChit && (pieces@[j].loc matches Loc::Hold {
                    room,
                    ..
                } && rooms.riding_at(room as int))),
        decreases pieces@.len() - i,
    {
        let p = pieces[i];
        if p.kind == Kind::TransitChit {
            if let Loc::Hold { room, .. } = p.loc {
                if rooms.riding(room) {
                    return true;
                }
            }
        }
        i = i + 1;
    }
    false
}

/// Whether charting a course to `id` is refused for want of papers: the
/// three inner-ring factions barely tolerate each other, so a direct
/// course from one inner world to another needs a transit chit aboard.
/// Arriving from the outer ring, or from the Guild, is nobody's business.
pub fn inner_ring_locked(ship: ShipState, rooms: &Rooms, pieces: &[Piece], id: PoiId) -> (r: bool)
    ensures
        r == (ship matches ShipState::Docked(at) && in_inner_ring(at) && in_inner_ring(id) && at != id && !chit_aboard(
            *rooms,
            pieces@,
        )),
{
    match ship {
        ShipState::Docked(at) => inner(at) && inner(id) && at != id && !transit_chit_aboard(rooms, pieces),
        _ => false,
    }
}


// ---------------------------------------------------------------------
// What a step says
// ---------------------------------------------------------------------

/// What the ship itself announces over a step.
#[derive(Clone, Copy, Debug, PartialEq, Eq, Structural)]
pub enum Voyage {
    /// A room came alongside.
    Attached,
    /// A room asked for could not come alongside, and why.
    Refit(Refusal),
    /// Warp dropped out: something worth watching began.
    WarpOff,
    /// The ship made port.
    Arrive,
    /// The comet gave up some ice: how many pieces came aboard.
    Harvest(u32),
    /// A second call in one pass of the comet finds only chisel marks.
    Reject,
    /// The hangar took a crate off the ship's hands at the Guild.
    Delivered,
    /// Enough crates delivered: the parade begins.
    ParadeStart,
}

/// Everything a step announces, by source: the omen, the encounter and
/// the drone, the stowaway, the hull's creaks (each a loudness roll),
/// and the ship itself.
pub struct Cues {
    pub omen: Vec<OmenSignal>,
    pub encounter: Vec<Signal>,
    pub rat: Vec<RatSignal>,
    pub creaks: Vec<u64>,
    pub voyage: Vec<Voyage>,
}

/// Nothing announced yet.
pub fn quiet() -> (r: Cues)
    ensures
        r.omen@.len() == 0 && r.encounter@.len() == 0 && r.rat@.len() == 0 && r.creaks@.len() == 0
            && r.voyage@.len() == 0,
{
    Cues { omen: Vec::new(), encounter: Vec::new(), rat: Vec::new(), creaks: Vec::new(), voyage: Vec::new() }
}

/// Call a room of `kind` alongside the cabin, announcing whether it came.
fn call_room(rooms: &mut Rooms, kind: RoomKind, cues: &mut Cues) -> (r: Option<RoomId>)
    requires
        old(rooms).wf(),
    ensures
        final(rooms).wf(),
        r is None ==> final(rooms)@ == old(rooms)@,
        r matches Some(id) ==> final(rooms).kind_at(id as int) == Some(kind),
{
    match rooms.spawn(kind, CABIN) {
        Ok(id) => {
            proof {
                let c = choose|c: (RoomId, u8, u8)| #[trigger] rooms.walked(*old(rooms), id as int, kind, CABIN, c);
            }
            cues.voyage.push(Voyage::Attached);
            Some(id)
        },
        Err(e) => {
            cues.voyage.push(Voyage::Refit(e));
            None
        },
    }
}

/// Drop out of warp, if on, with its cue.
fn disengage_warp(warp: &mut bool, cues: &mut Cues)
    ensures
        !*final(warp),
{
    if *warp {
        *warp = false;
        cues.voyage.push(Voyage::WarpOff);
    }
}

/// Whether seedlings stand in a room that travels with the ship: what a
/// passing whale notices.
pub open spec fn garden_aboard(rooms: Rooms, pieces: Seq<Piece>) -> bool {
    exists|i: int|
        0 <= i < pieces.len() && (#[trigger] pieces[i]).kind == Kind::Seedlings && (pieces[i].loc matches Loc::Hold {
            room,
            ..
        } && rooms.riding_at(room as int))
}

/// Whether seedlings stand in a room that travels with the ship.
fn seedlings_aboard(rooms: &Rooms, pieces: &[Piece]) -> (r: bool)
    ensures
        r == garden_aboard(*rooms, pieces@),
{
    let mut i: usize = 0;
    while i < pieces.len()
        invariant
            i <= pieces@.len(),
            forall|j: int|
                0 <= j < i ==> !((#[trigger] pieces@[j]).kind == Kind::Seedlings && (pieces@[j].loc matches Loc::Hold {
                    room,
                    ..
                } && rooms.riding_at(room as int))),
        decreases pieces@.len() - i,
    {
        let p = pieces[i];
        if p.kind == Kind::Seedlings {
            if let Loc::Hold { room, .. } = p.loc {
                if rooms.riding(room) {
                    return true;
                }
            }
        }
        i = i + 1;
    }
    false
}

/// Whether every berth of the board lies within the reach the rat and
/// the fluffs reason about: no room's grid comes near it.
fn berths_small(pieces: &[Piece]) -> (r: bool)
    ensures
        r == berths_in_range(pieces@),
{
    let mut i: usize = 0;
    while i < pieces.len()
        invariant
            i <= pieces@.len(),
            forall|j: int|
                0 <= j < i ==> match (#[trigger] pieces@[j]).loc {
                    Loc::Hold { x, y, .. } | Loc::Laid { x, y, .. } => x < 250 && y < 250,
                    Loc::Stow { .. } => true,
                },
        decreases pieces@.len() - i,
    {
        match pieces[i].loc {
            Loc::Hold { x, y, .. } | Loc::Laid { x, y, .. } => {
                if !(x < 250 && y < 250) {
                    return false;
                }
            },
            Loc::Stow { .. } => {},
        }
        i = i + 1;
    }
    true
}


// ---------------------------------------------------------------------
// Arrival
// ---------------------------------------------------------------------

/// Whether every piece with identity `cid` is a suspicious crate
/// berthed in the cabin, a room that rides, and at least one piece has
/// it.
pub open spec fn crate_in_cabin(rooms: Rooms, pieces: Seq<Piece>, cid: u32) -> bool {
    &&& rooms.riding_at(CABIN as int)
    &&& exists|k: int| 0 <= k < pieces.len() && #[trigger] pieces[k].id == cid
    &&& forall|k: int|
        0 <= k < pieces.len() && #[trigger] pieces[k].id == cid ==> pieces[k].kind.spec_tag() == Some(Tag::Suspicious)
            && (pieces[k].loc matches Loc::Hold { room, .. } && room == CABIN)
}

/// Walking pieces aboard by identity keeps every identity in place, and
/// leaves every piece whose identity is not walked as it was.
proof fn lemma_walked_keeps(rooms: Rooms, p: Seq<Piece>, ids: Seq<u32>, cid: u32)
    requires
        !ids.contains(cid),
    ensures
        walked(rooms, p, ids).len() == p.len(),
        forall|k: int| 0 <= k < p.len() ==> (#[trigger] walked(rooms, p, ids)[k]).id == p[k].id,
        forall|k: int| 0 <= k < p.len() && p[k].id == cid ==> #[trigger] walked(rooms, p, ids)[k] == p[k],
    decreases ids.len(),
{
    if ids.len() > 0 {
        let rest = ids.drop_last();
        assert(!rest.contains(cid)) by {
            if rest.contains(cid) {
                let j = choose|j: int| 0 <= j < rest.len() && rest[j] == cid;
                assert(ids[j] == cid);
            }
        }
        assert(ids.last() != cid) by {
            assert(ids[ids.len() - 1] == ids.last());
        }
        lemma_walked_keeps(rooms, p, rest, cid);
        let p1 = walked(rooms, p, rest);
        lemma_first_with_id_in(p1, ids.last(), 0);
    }
}

/// No piece of identity `cid` is a stray of a calling room when every
/// piece with that identity is berthed in the cabin.
proof fn lemma_no_stray_crate(rooms: Rooms, p: Seq<Piece>, room: RoomId, cid: u32)
    requires
        room != CABIN,
        forall|k: int|
            0 <= k < p.len() && #[trigger] p[k].id == cid ==> (p[k].loc matches Loc::Hold { room: r, .. } && r == CABIN),
    ensures
        !strays_of(rooms, p, room).contains(cid),
{
    let keep = strays_in(rooms, p, room);
    let f = p.filter(keep);
    if strays_of(rooms, p, room).contains(cid) {
        let j = choose|j: int| 0 <= j < strays_of(rooms, p, room).len() && strays_of(rooms, p, room)[j] == cid;
        #[allow(deprecated)]
        p.filter_lemma(keep);
        assert(f[j].id == cid);
        assert(keep(f[j]));
        p.lemma_filter_contains_rev(keep, f[j]);
        let k = choose|k: int| 0 <= k < p.len() && p[k] == f[j];
        assert(p[k].id == cid);
    }
}

/// Let every calling room fall astern, anything of the player's inside
/// walking aboard first. A crate in the cabin, the only pieces of its
/// identity, rides on untouched.
fn dismiss_callers(rooms: &mut Rooms, pieces: &mut Vec<Piece>, marks: &mut Vec<u32>, held: &mut Vec<Option<Held>>)
    requires
        old(rooms).wf(),
    ensures
        final(rooms).wf(),
        forall|cid: u32|
            #[trigger] crate_in_cabin(*old(rooms), old(pieces)@, cid) ==> crate_in_cabin(*final(rooms), final(pieces)@, cid),
{
    let ghost r0 = *rooms;
    let ghost p0 = pieces@;
    let list = rooms.iter();
    let mut callers: Vec<RoomId> = Vec::new();
    let mut k: usize = 0;
    while k < list.len()
        invariant
            k <= list@.len(),
            *rooms == r0,
            forall|i: int| 0 <= i < list@.len() ==> #[trigger] rooms.room_at(list@[i].0 as int) == Some(list@[i].1),
            forall|i: int| 0 <= i < callers@.len() ==> !rooms.riding_at(#[trigger] callers@[i] as int),
        decreases list@.len() - k,
    {
        let (id, room) = list[k];
        if !room.kind.riding() {
            callers.push(id);
        }
        k = k + 1;
    }
    let mut k: usize = 0;
    while k < callers.len()
        invariant
            k <= callers@.len(),
            *rooms == r0,
            forall|i: int| 0 <= i < callers@.len() ==> !r0.riding_at(#[trigger] callers@[i] as int),
            forall|cid: u32| #[trigger] crate_in_cabin(r0, p0, cid) ==> crate_in_cabin(r0, pieces@, cid),
        decreases callers@.len() - k,
    {
        let ghost before = pieces@;
        let c = callers[k];
        walk_aboard(rooms, pieces, c);
        proof {
            assert forall|cid: u32| #[trigger] crate_in_cabin(r0, p0, cid) implies crate_in_cabin(r0, pieces@, cid) by {
                assert(crate_in_cabin(r0, before, cid));
                assert(!r0.riding_at(c as int));
                assert(c != CABIN);
                lemma_no_stray_crate(r0, before, c, cid);
                let ids = strays_of(r0, before, c);
                lemma_walked_keeps(r0, before, ids, cid);
                let k0 = choose|k0: int| 0 <= k0 < before.len() && #[trigger] before[k0].id == cid;
                assert(pieces@[k0].id == cid);
                assert forall|m: int| 0 <= m < pieces@.len() && #[trigger] pieces@[m].id == cid implies pieces@[m].kind.spec_tag()
                    == Some(Tag::Suspicious) && (pieces@[m].loc matches Loc::Hold { room, .. } && room == CABIN) by {
                    assert(before[m].id == cid);
                    assert(pieces@[m] == before[m]);
                }
            }
        }
        k = k + 1;
    }
    let mut k: usize = 0;
    while k < callers.len()
        invariant
            k <= callers@.len(),
            rooms.wf(),
            rooms.kind_at(CABIN as int) == r0.kind_at(CABIN as int),
            forall|cid: u32| #[trigger] crate_in_cabin(r0, p0, cid) ==> crate_in_cabin(*rooms, pieces@, cid),
        decreases callers@.len() - k,
    {
        let room = callers[k];
        if room != CABIN && rooms.kind(room).is_some() {
            let ghost rb = *rooms;
            let ghost before = pieces@;
            part(rooms, pieces, marks, held, room);
            proof {
                assert forall|cid: u32| #[trigger] crate_in_cabin(r0, p0, cid) implies crate_in_cabin(*rooms, pieces@, cid) by {
                    assert(crate_in_cabin(rb, before, cid));
                    let keep = crate::sim::stays_piece(rb, before, room);
                    let k0 = choose|k0: int| 0 <= k0 < before.len() && #[trigger] before[k0].id == cid;
                    assert(!crate::sim::id_goes(rb, before, room, cid)) by {
                        if crate::sim::id_goes(rb, before, room, cid) {
                            let i = choose|i: int| 0 <= i < before.len() && #[trigger] before[i].id == cid
                                && crate::sim::goes_with(rb, before, room, before[i]);
                            assert(before[i].loc matches Loc::Hold { room: r, .. } && r == CABIN);
                        }
                    }
                    assert(keep(before[k0]));
                    before.lemma_filter_contains(keep, k0);
                    let f = before.filter(keep);
                    let k1 = choose|k1: int| 0 <= k1 < f.len() && f[k1] == before[k0];
                    assert(pieces@[k1].id == cid);
                    assert forall|m: int| 0 <= m < pieces@.len() && #[trigger] pieces@[m].id == cid implies pieces@[m].kind.spec_tag()
                        == Some(Tag::Suspicious) && (pieces@[m].loc matches Loc::Hold { room, .. } && room == CABIN) by {
                        assert(f.contains(f[m]));
                        before.lemma_filter_contains_rev(keep, f[m]);
                        let i = choose|i: int| 0 <= i < before.len() && before[i] == f[m];
                        assert(before[i].id == cid);
                    }
                }
            }
        }
        k = k + 1;
    }
}

/// The salt of the comet's harvest rolls.
pub const SALT_HARVEST: u64 = 0xC0_3E71;

/// Which pass of the comet tick `tick` falls in, on an orbit of `period`
/// ticks started `phase` ticks in.
pub open spec fn apparition_at(tick: u64, period: u64, phase: u64) -> int {
    (tick + phase) / (period as int)
}

/// Docked at the comet: chip off some ice, free. One to three shards,
/// as the hold allows, and one visit in three something odd frozen
/// inside. Once per pass: a second call in the same pass finds only
/// chisel marks.
fn harvest_comet(run: &mut Run, rng: &mut fastrand::Rng, visit: u32, apparition: u64, cues: &mut Cues)
    requires
        old(run).next_piece as int + 4 < u32::MAX,
    ensures
        final(run).rooms == old(run).rooms,
        final(run).next_piece <= old(run).next_piece + 4,
        old(run).comet_visit == Some(apparition) ==> final(run).pieces@ == old(run).pieces@,
        final(run).comet_visit == Some(apparition),
        final(run).tick == old(run).tick && final(run).ship == old(run).ship && final(run).stoke == old(run).stoke
            && final(run).encounters == old(run).encounters && final(run).visits == old(run).visits
            && final(run).selected == old(run).selected && final(run).warp == old(run).warp
            && final(run).drones == old(run).drones && final(run).events == old(run).events,
{
    if run.comet_visit == Some(apparition) {
        cues.voyage.push(Voyage::Reject);
        return;
    }
    run.comet_visit = Some(apparition);
    let h = splitmix(run.seed ^ SALT_HARVEST, visit as u64);
    let shards = 1 + h % 3;
    let mut placed: u32 = 0;
    let mut k: u64 = 0;
    while k < shards
        invariant
            k <= shards <= 3,
            placed as int <= k,
            run.next_piece <= old(run).next_piece + placed,
            old(run).next_piece as int + 4 < u32::MAX,
            run.rooms == old(run).rooms,
            run.comet_visit == Some(apparition),
            run.tick == old(run).tick && run.ship == old(run).ship && run.stoke == old(run).stoke
                && run.encounters == old(run).encounters && run.visits == old(run).visits
                && run.selected == old(run).selected && run.warp == old(run).warp
                && run.drones == old(run).drones && run.events == old(run).events,
        decreases shards - k,
    {
        if !spawn_in_hold(&run.rooms, &mut run.pieces, &mut run.next_piece, rng, Kind::CometIce) {
            break;
        }
        placed = placed + 1;
        k = k + 1;
    }
    if (h >> 32) % 3 == 0 && spawn_in_hold(&run.rooms, &mut run.pieces, &mut run.next_piece, rng, Kind::MysteriousCrate) {
        placed = placed + 1;
    }
    if placed > 0 {
        cues.voyage.push(Voyage::Harvest(placed));
    }
}


/// An encounter with a counterparty or a place brings its own room
/// alongside when it opens: a derelict its wreck, with the salvage
/// `salvage` stocked in it; a casino its parlor; a gas station its pump
/// bay. Weather brings nothing. Salvage with no wreck to hold it, such as
/// a meteor's souvenir, is simply stowed aboard.
fn open_encounter_room(run: &mut Run, rng: &mut fastrand::Rng, opened: bool, salvage: &Vec<Kind>, cues: &mut Cues)
    requires
        old(run).rooms.wf(),
        old(run).next_piece as int + salvage@.len() < u32::MAX,
    ensures
        final(run).rooms.wf(),
        final(run).next_piece <= old(run).next_piece + salvage@.len(),
        final(run).tick == old(run).tick && final(run).ship == old(run).ship && final(run).stoke == old(run).stoke
            && final(run).encounters == old(run).encounters && final(run).visits == old(run).visits
            && final(run).events == old(run).events && final(run).rats == old(run).rats
            && final(run).deliveries == old(run).deliveries,
{
    if opened {
        let kind = match run.encounters.current {
            Some(e) => Some(e.kind),
            None => None,
        };
        match kind {
            Some(EncounterKind::Derelict) => {
                if let Some(room) = call_room(&mut run.rooms, RoomKind::Wreck, cues) {
                    let ghost p1 = run.pieces@;
                    let ghost n1 = run.next_piece;
                    stock_in(&run.rooms, &mut run.pieces, &mut run.next_piece, rng, room, salvage);
                    proof {
                        let vs = choose|vs: Seq<u8>|
                            #![trigger crate::sim::run::all_variants(vs)]
                            vs.len() == salvage@.len() && crate::sim::run::all_variants(vs) && (run.pieces@, run.next_piece)
                                == crate::sim::run::stock_all(run.rooms, p1, n1, room, salvage@, vs);
                        lemma_stock_grows(run.rooms, p1, n1, room, salvage@);
                        assert(crate::sim::run::stock_all(run.rooms, p1, n1, room, salvage@, vs).1 <= n1 + salvage@.len());
                    }
                    return;
                }
            },
            Some(EncounterKind::Casino) => {
                let _ = call_room(&mut run.rooms, RoomKind::Parlor, cues);
            },
            Some(EncounterKind::GasStation) => {
                let _ = call_room(&mut run.rooms, RoomKind::Pump, cues);
            },
            _ => {},
        }
    }
    let ghost n0 = run.next_piece;
    let mut k: usize = 0;
    while k < salvage.len()
        invariant
            k <= salvage@.len(),
            run.next_piece <= n0 + k,
            n0 == old(run).next_piece,
            old(run).next_piece as int + salvage@.len() < u32::MAX,
            run.rooms.wf(),
            run.tick == old(run).tick && run.ship == old(run).ship && run.stoke == old(run).stoke
                && run.encounters == old(run).encounters && run.visits == old(run).visits
                && run.events == old(run).events && run.rats == old(run).rats
                && run.deliveries == old(run).deliveries,
        decreases salvage@.len() - k,
    {
        let _ = spawn_in_hold(&run.rooms, &mut run.pieces, &mut run.next_piece, rng, salvage[k]);
        k = k + 1;
    }
}


/// Arrive at `poi`: moor there, drop out of warp, close out whatever the
/// leg brought, let the calling rooms fall astern, count the visit, and
/// bring the port's own room alongside: the Guild's hangar takes its
/// crates first; the comet gives up ice once a pass; `???` brings a room
/// and stocks nothing; everywhere else opens its market.
fn dock(run: &mut Run, rng: &mut fastrand::Rng, poi: PoiId, apparition: u64, cues: &mut Cues)
    requires
        old(run).rooms.wf(),
        (poi as int) < POI_COUNT,
        old(run).visits@.len() == POI_COUNT,
        old(run).visits@[poi as int] < u32::MAX,
        old(run).next_piece as int + 8 < u32::MAX,
        old(run).deliveries as int + 4 <= u32::MAX,
    ensures
        final(run).rooms.wf(),
        final(run).ship == ShipState::Docked(poi),
        final(run).selected is None,
        !final(run).warp,
        final(run).encounters.current is None,
        final(run).drones.drone is None,
        final(run).events.phase == Phase::Idle && final(run).events.jump_at is None,
        final(run).events.leg_counter == old(run).events.leg_counter,
        final(run).visits@ == old(run).visits@.update(poi as int, (old(run).visits@[poi as int] + 1) as u32),
        final(run).next_piece <= old(run).next_piece + 4,
        final(run).tick == old(run).tick && final(run).stoke == old(run).stoke,
        poi == GUILD && (exists|cid: u32| #[trigger] crate_in_cabin(old(run).rooms, old(run).pieces@, cid))
            ==> final(run).deliveries > old(run).deliveries && final(cues).voyage@.contains(Voyage::Delivered),
{
    run.ship = ShipState::Docked(poi);
    run.selected = None;
    disengage_warp(&mut run.warp, cues);
    run.events.on_arrive(&mut cues.omen);
    run.encounters.on_dock(&mut cues.encounter);
    run.drones.on_dock(&mut cues.encounter);
    dismiss_callers(&mut run.rooms, &mut run.pieces, &mut run.marks, &mut run.held);
    run.barter = None;
    proof {
        if exists|cid: u32| #[trigger] crate_in_cabin(old(run).rooms, old(run).pieces@, cid) {
            let cid = choose|cid: u32| #[trigger] crate_in_cabin(old(run).rooms, old(run).pieces@, cid);
            assert(crate_in_cabin(run.rooms, run.pieces@, cid));
            let k = choose|k: int| 0 <= k < run.pieces@.len() && #[trigger] run.pieces@[k].id == cid;
            assert(crate::sim::underway::seized(run.rooms, run.pieces@[k]));
            lemma_first_seized_found(run.rooms, run.pieces@, 0, k);
        }
    }
    if poi == GUILD {
        match steal_crate(&run.rooms, &mut run.pieces, &mut run.held, &mut run.deliveries, &mut run.parade_at, run.tick) {
            Some(parade) => {
                cues.voyage.push(Voyage::Delivered);
                assert(cues.voyage@.last() == Voyage::Delivered);
                if parade {
                    let ghost v1 = cues.voyage@;
                    cues.voyage.push(Voyage::ParadeStart);
                    assert(cues.voyage@[v1.len() - 1] == Voyage::Delivered);
                }
                assert(cues.voyage@.contains(Voyage::Delivered));
            },
            None => {},
        }
    }
    assert(poi == GUILD && (exists|cid: u32| #[trigger] crate_in_cabin(old(run).rooms, old(run).pieces@, cid))
        ==> run.deliveries > old(run).deliveries && cues.voyage@.contains(Voyage::Delivered));
    let ghost d1 = run.deliveries;
    if run.pieces.len() < 0x1000_0000 {
        run.rats.on_dock(run.pieces.as_slice(), &mut cues.rat);
    }
    let visit = run.visits[poi as usize] + 1;
    run.visits.set(poi as usize, visit);
    if poi == COMET {
        harvest_comet(run, rng, visit, apparition, cues);
    } else if poi == WANDERER {
        let _ = call_room(&mut run.rooms, RoomKind::Trade, cues);
    } else {
        let paraded = run.parade_at.is_some();
        match open_trade(
            run.seed,
            poi,
            visit,
            run.karma,
            paraded,
            &mut run.rooms,
            &mut run.pieces,
            &mut run.next_piece,
            rng,
        ) {
            Some((_, b, values)) => {
                run.barter = Some(b);
                run.values = values;
            },
            None => {},
        }
    }
    assert(poi != COMET ==> run.deliveries == d1);
    let ghost v0 = cues.voyage@;
    cues.voyage.push(Voyage::Arrive);
    proof {
        if v0.contains(Voyage::Delivered) {
            let i = choose|i: int| 0 <= i < v0.len() && v0[i] == Voyage::Delivered;
            assert(cues.voyage@[i] == Voyage::Delivered);
        }
    }
}

/// Some piece from `i` on is seized once a seized piece lies at or past `i`.
proof fn lemma_first_seized_found(rooms: Rooms, ps: Seq<Piece>, i: int, k: int)
    requires
        0 <= i <= k < ps.len(),
        crate::sim::underway::seized(rooms, ps[k]),
    ensures
        crate::sim::underway::first_seized(rooms, ps, i) is Some,
    decreases k - i,
{
    if !crate::sim::underway::seized(rooms, ps[i]) {
        lemma_first_seized_found(rooms, ps, i + 1, k);
    }
}


// ---------------------------------------------------------------------
// One step
// ---------------------------------------------------------------------

/// The boost a banked fire gives this step: one tick of stoke spent for
/// one extra tick of way made good.
pub open spec fn boost(run: Run) -> u64 {
    if run.stoke > 0 {
        1
    } else {
        0
    }
}

/// The piece the stoker feeds the burner on step `tick`, if any: only on
/// its beat, and never while something alongside is being watched.
pub open spec fn fed_piece(run: Run, tick: u64) -> Option<Piece> {
    if tick % STOKE_PERIOD == 0 && !watching(run.encounters) {
        spec_hopper(run.rooms, run.pieces@)
    } else {
        None
    }
}

/// The banked stoke after a travel step's boost and feeding.
pub open spec fn stoke_after(run: Run, tick: u64) -> int {
    run.stoke - boost(run) + match fed_piece(run, tick) {
        Some(p) => p.kind.spec_flammable() * STOKE_PER_FLAM,
        None => 0,
    }
}

/// The board once the stoker has fed the burner on step `tick`.
pub open spec fn board_after_feed(run: Run, tick: u64) -> Seq<Piece> {
    match fed_piece(run, tick) {
        Some(p) => without_id(run.pieces@, p.id),
        None => run.pieces@,
    }
}

/// Whether a step of `run` is one this game can take: the room graph
/// well formed, every counter with room to count, the omen in a phase it
/// has, and a leg under way that the omen's jump can reason about. On
/// any other state some count would overflow, or the jump would reach
/// past the leg's end.
pub open spec fn step_ready(run: Run) -> bool {
    &&& run.tick < TICK_REACH
    &&& run.stoke + 3 * STOKE_PER_FLAM <= u64::MAX
    &&& run.next_piece as int + 16 < u32::MAX
    &&& run.deliveries as int + 4 <= u32::MAX
    &&& run.visits@.len() == POI_COUNT
    &&& forall|i: int| 0 <= i < POI_COUNT ==> #[trigger] run.visits@[i] < u32::MAX
    &&& phase_ok(run.events.phase)
    &&& run.ship matches ShipState::Traveling { from, to, progress, leg_ticks } ==> {
        &&& (to as int) < POI_COUNT
        &&& leg_ticks <= OMEN_LEG_REACH
        &&& progress <= leg_ticks
        &&& (run.events.phase matches Phase::Omen { elapsed } && elapsed + 1 >= OMEN_LEAD_TICKS) ==> progress + 1
            + boost(run) <= leg_ticks
    }
}

/// What the omen makes of a leg's progress this step: the progress after
/// one tick of way, a banked tick more while the fire burns, and the
/// omen's jump.
pub open spec fn way_made(run: Run) -> (crate::sim::event::Events, u64, Seq<OmenSignal>) {
    match run.ship {
        ShipState::Traveling { progress, leg_ticks, .. } => omen_step(
            run.events,
            (progress + 1 + boost(run)) as u64,
            leg_ticks,
        ),
        ShipState::Docked(_) => (run.events, 0, Seq::empty()),
    }
}

/// The leg's encounter `current` after a tick against progress `p`,
/// with seedlings in the garden or not.
#[verifier::opaque]
pub open spec fn met(
    current: Option<crate::sim::encounter::Encounter>,
    seed: u64,
    legs: u64,
    p: u64,
    tick: u64,
    garden: bool,
) -> Option<crate::sim::encounter::Encounter> {
    match current {
        None => None,
        Some(e) => Some(encounter_step(e, seed, legs, p, tick, garden).0),
    }
}

/// The encounter after a step under way that made `p` of the leg.
pub open spec fn encounter_after(run: Run, tick: u64, p: u64) -> Option<crate::sim::encounter::Encounter> {
    met(run.encounters.current, run.seed, run.legs, p, tick, garden_aboard(run.rooms, board_after_feed(run, tick)))
}

/// The first half of a step under way: way made (a banked tick more
/// while the fire burns), the burner fed on its beat, the omen walked,
/// the hull's creak. The progress after the omen.
fn burn_and_omen(run: &mut Run, tick: u64, cues: &mut Cues) -> (p: u64)
    requires
        step_ready(*old(run)),
        old(run).ship is Traveling,
    ensures
        p == way_made(*old(run)).1,
        final(run).stoke == stoke_after(*old(run), tick),
        final(run).events == way_made(*old(run)).0,
        final(run).pieces@ == board_after_feed(*old(run), tick),
        final(run).rooms == old(run).rooms,
        final(run).encounters == old(run).encounters,
        final(run).ship == old(run).ship,
        final(run).tick == old(run).tick,
        final(run).visits == old(run).visits,
        final(run).deliveries == old(run).deliveries,
        final(run).next_piece == old(run).next_piece,
        final(run).seed == old(run).seed && final(run).legs == old(run).legs,
{
    let (progress, leg_ticks) = match run.ship {
        ShipState::Traveling { progress, leg_ticks, .. } => (progress, leg_ticks),
        ShipState::Docked(_) => (0, 0),
    };
    let ghost before = *run;
    let mut progress = progress + 1;
    if run.stoke > 0 {
        run.stoke = run.stoke - 1;
        progress = progress + 1;
    }
    let _ = feed_burner(&run.rooms, &mut run.pieces, &mut run.marks, &mut run.held, &mut run.stoke, &run.encounters, tick);
    run.events.travel_tick(&mut progress, leg_ticks, &mut cues.omen);
    match creak(run.seed, tick) {
        Some(roll) => cues.creaks.push(roll),
        None => {},
    }
    progress
}

/// The leg's encounter ticks against `progress`: the salvage it leaves,
/// and whether it just came alongside.
fn encounter_tick(run: &mut Run, progress: u64, tick: u64, cues: &mut Cues) -> (r: (Vec<Kind>, bool))
    ensures
        final(run).encounters.current == met(old(run).encounters.current, old(run).seed, old(run).legs, progress, tick, garden_aboard(old(run).rooms, old(run).pieces@)),
        r.0@.len() <= 2,
        final(run).rooms == old(run).rooms && final(run).pieces == old(run).pieces,
        final(run).next_piece == old(run).next_piece,
        final(run).stoke == old(run).stoke && final(run).events == old(run).events && final(run).ship == old(run).ship,
        final(run).tick == old(run).tick && final(run).visits == old(run).visits,
        final(run).deliveries == old(run).deliveries,
{
    let seedlings = seedlings_aboard(&run.rooms, run.pieces.as_slice());
    let watched = match run.encounters.current {
        Some(e) => Some(e.opened),
        None => None,
    };
    let spawn = run.encounters.travel_tick(run.seed, run.legs, progress, tick, seedlings, &mut cues.encounter);
    let opened = match (watched, run.encounters.current) {
        (Some(false), Some(e)) => e.opened,
        _ => false,
    };
    proof {
        reveal(met);
    }
    (spawn, opened)
}

/// Breed the fluffs, where every berth lies within the reach their
/// arithmetic reasons about.
fn breed(run: &mut Run, rng: &mut fastrand::Rng, tick: u64)
    ensures
        final(run).rooms == old(run).rooms,
        final(run).next_piece <= old(run).next_piece + 1,
        final(run).encounters == old(run).encounters,
        final(run).stoke == old(run).stoke && final(run).events == old(run).events && final(run).ship == old(run).ship,
        final(run).tick == old(run).tick && final(run).visits == old(run).visits,
        final(run).deliveries == old(run).deliveries,
{
    if berths_small(run.pieces.as_slice()) && run.next_piece < u32::MAX {
        let _ = breed_fluffs(&run.rooms, &mut run.pieces, &mut run.next_piece, rng, run.seed, tick);
    }
}

/// The second half of a step under way: the leg's encounter and drone
/// tick against `progress`, a counterparty that just came alongside
/// brings its room, warp drops when something began (an omen among the
/// omen signals from index `omens` on too), the fluffs breed.
fn alongside(run: &mut Run, rng: &mut fastrand::Rng, progress: u64, tick: u64, omens: usize, cues: &mut Cues)
    requires
        old(run).rooms.wf(),
        old(run).next_piece as int + 16 < u32::MAX,
    ensures
        final(run).rooms.wf(),
        final(run).encounters.current == met(old(run).encounters.current, old(run).seed, old(run).legs, progress, tick, garden_aboard(old(run).rooms, old(run).pieces@)),
        final(run).stoke == old(run).stoke,
        final(run).events == old(run).events,
        final(run).ship == old(run).ship,
        final(run).tick == old(run).tick,
        final(run).visits == old(run).visits,
        final(run).deliveries == old(run).deliveries,
        final(run).next_piece <= old(run).next_piece + 3,
{
    let signals = cues.encounter.len();
    let (spawn, opened) = encounter_tick(run, progress, tick, cues);
    let ghost met = run.encounters;
    open_encounter_room(run, rng, opened, &spawn, cues);
    run.drones.travel_tick(progress, &mut cues.encounter);
    let omen_began = cues.omen.len() > omens && cues.omen[omens] == OmenSignal::Start;
    if began(&cues.encounter, signals) || omen_began {
        disengage_warp(&mut run.warp, cues);
    }
    breed(run, rng, tick);
}

/// One fixed step of a run. The clock advances. Under way, the ship
/// makes one tick of way (two while the banked fire burns, spending a
/// tick of stoke), the stoker feeds the burner on its beat, the omen
/// walks its phases (its jump skips three quarters of what is left of
/// the leg), the hull creaks, the leg's encounter and drone tick against
/// the ship's progress, a counterparty that just came alongside brings
/// its room, warp drops when something begins, the fluffs breed, and a
/// leg whose progress reaches its length ends in port. Moored or under
/// way, the stowaway keeps its schedule. `comet` is the comet's orbit,
/// its period and phase in ticks, which says which pass of it a call
/// falls in.
pub fn travel_step(run: &mut Run, rng: &mut fastrand::Rng, comet: (u64, u64), cues: &mut Cues)
    requires
        old(run).rooms.wf(),
        step_ready(*old(run)),
        comet.0 > 0,
    ensures
        final(run).rooms.wf(),
        final(run).tick == old(run).tick + 1,
        match old(run).ship {
            ShipState::Docked(_) => {
                &&& final(run).ship == old(run).ship
                &&& final(run).stoke == old(run).stoke
                &&& final(run).encounters == old(run).encounters
                &&& final(run).events == old(run).events
            },
            ShipState::Traveling { from, to, progress, leg_ticks } => {
                let tick = (old(run).tick + 1) as u64;
                let (ev, p, said) = way_made(*old(run));
                &&& final(run).stoke == stoke_after(*old(run), tick)
                &&& p < leg_ticks ==> {
                    &&& final(run).ship == ShipState::Traveling { from, to, progress: p, leg_ticks }
                    &&& final(run).events == ev
                    &&& final(run).encounters.current == encounter_after(*old(run), tick, p)
                    &&& final(run).visits == old(run).visits
                }
                &&& p >= leg_ticks ==> {
                    &&& final(run).ship == ShipState::Docked(to)
                    &&& final(run).encounters.current is None
                    &&& final(run).events.phase == Phase::Idle
                    &&& final(run).visits@ == old(run).visits@.update(
                        to as int,
                        (old(run).visits@[to as int] + 1) as u32,
                    )
                }
            },
        },
{
    let tick = run.tick + 1;
    match run.ship {
        ShipState::Traveling { from, to, leg_ticks, .. } => {
            let ghost start = *run;
            let omens = cues.omen.len();
            let progress = burn_and_omen(run, tick, cues);
            alongside(run, rng, progress, tick, omens, cues);
            run.tick = tick;
            if progress >= leg_ticks {
                let apparition = ((tick as u128 + comet.1 as u128) / comet.0 as u128) as u64;
                dock(run, rng, to, apparition, cues);
            } else {
                run.ship = ShipState::Traveling { from, to, progress, leg_ticks };
            }
        },
        ShipState::Docked(_) => {
            run.tick = tick;
        },
    }
    let rat_ok = match run.rats.rat {
        Some(r) => r.cell.0 < 255 && r.cell.1 < 255,
        None => true,
    };
    if rat_ok && berths_small(run.pieces.as_slice()) {
        run.rats.on_tick(run.seed, tick, run.pieces.as_mut_slice(), &mut cues.rat);
    }
}

/// Whether an encounter or the drone began among the signals from index
/// `from` on.
fn began(signals: &Vec<Signal>, from: usize) -> (r: bool)
    ensures
        r == exists|i: int|
            from <= i < signals@.len() && (signals@[i] == Signal::EncounterStart || signals@[i] == Signal::AdStart),
{
    let mut i: usize = from;
    while i < signals.len()
        invariant
            from <= i || i == from,
            forall|j: int| from <= j < i ==> !(signals@[j] == Signal::EncounterStart || signals@[j] == Signal::AdStart),
        decreases signals@.len() - i,
    {
        if signals[i] == Signal::EncounterStart || signals[i] == Signal::AdStart {
            return true;
        }
        i = i + 1;
    }
    false
}


// ---------------------------------------------------------------------
// Catching up
// ---------------------------------------------------------------------

/// Whether a step of `run` is one this game can take.
pub fn ready(run: &Run) -> (r: bool)
    ensures
        r == step_ready(*run),
{
    if !(run.tick < TICK_REACH && run.stoke <= u64::MAX - 3 * STOKE_PER_FLAM && run.next_piece < u32::MAX - 16
        && run.deliveries <= u32::MAX - 4 && run.visits.len() == POI_COUNT) {
        return false;
    }
    let mut i: usize = 0;
    while i < POI_COUNT
        invariant
            i <= POI_COUNT,
            run.visits@.len() == POI_COUNT,
            forall|j: int| 0 <= j < i ==> #[trigger] run.visits@[j] < u32::MAX,
        decreases POI_COUNT - i,
    {
        if run.visits[i] == u32::MAX {
            return false;
        }
        i = i + 1;
    }
    let phase_fine = match run.events.phase {
        Phase::Idle => true,
        Phase::Omen { elapsed } => elapsed < OMEN_LEAD_TICKS,
        Phase::Wake { elapsed } => elapsed < OMEN_TAIL_TICKS,
    };
    if !phase_fine {
        return false;
    }
    match run.ship {
        ShipState::Traveling { to, progress, leg_ticks, .. } => {
            if !((to as usize) < POI_COUNT && leg_ticks <= OMEN_LEG_REACH && progress <= leg_ticks) {
                return false;
            }
            let b: u64 = if run.stoke > 0 { 1 } else { 0 };
            match run.events.phase {
                Phase::Omen { elapsed } => {
                    if elapsed + 1 >= OMEN_LEAD_TICKS {
                        progress + 1 + b <= leg_ticks
                    } else {
                        true
                    }
                },
                _ => true,
            }
        },
        ShipState::Docked(_) => true,
    }
}

/// What a catch-up did: how many steps it ran, and whether the ship
/// made port or jumped along the way.
pub struct CatchUp {
    pub ticks: u64,
    pub arrived: bool,
    pub jumped: bool,
}

/// Whether the ship announced an arrival among `said`.
fn made_port(said: &Vec<Voyage>) -> (r: bool)
    ensures
        r == said@.contains(Voyage::Arrive),
{
    let mut i: usize = 0;
    while i < said.len()
        invariant
            i <= said@.len(),
            forall|j: int| 0 <= j < i ==> said@[j] != Voyage::Arrive,
        decreases said@.len() - i,
    {
        if said[i] == Voyage::Arrive {
            assert(said@[i as int] == Voyage::Arrive);
            return true;
        }
        i = i + 1;
    }
    false
}

/// Whether the omen announced a jump among `said`.
fn jumped_ahead(said: &Vec<OmenSignal>) -> (r: bool)
    ensures
        r == said@.contains(OmenSignal::Jump),
{
    let mut i: usize = 0;
    while i < said.len()
        invariant
            i <= said@.len(),
            forall|j: int| 0 <= j < i ==> said@[j] != OmenSignal::Jump,
        decreases said@.len() - i,
    {
        if said[i] == OmenSignal::Jump {
            assert(said@[i as int] == OmenSignal::Jump);
            return true;
        }
        i = i + 1;
    }
    false
}

/// Catch up on `ticks` steps of elapsed time, as that many steps would
/// run them with nobody at the controls: every carry in progress snaps
/// back first, and what the steps announce is summed up rather than
/// heard. A paused run stays exactly where it was left. The catch-up
/// stops early only at a state no step can take (a count about to
/// overflow, or an omen's jump reaching past the leg's end).
pub fn fast_forward(run: &mut Run, rng: &mut fastrand::Rng, comet: (u64, u64), ticks: u64) -> (r: CatchUp)
    requires
        old(run).rooms.wf(),
        comet.0 > 0,
    ensures
        final(run).rooms.wf(),
        old(run).paused ==> r.ticks == 0 && *final(run) == *old(run),
        !old(run).paused ==> {
            &&& r.ticks <= ticks
            &&& final(run).tick == old(run).tick + r.ticks
            &&& r.ticks < ticks ==> !step_ready(*final(run))
        },
{
    if run.paused {
        return CatchUp { ticks: 0, arrived: false, jumped: false };
    }
    run.held = crate::sim::run::idle_hands();
    let mut cues = quiet();
    let mut ran: u64 = 0;
    while ran < ticks
        invariant
            ran <= ticks,
            run.rooms.wf(),
            run.tick == old(run).tick + ran,
            comet.0 > 0,
        ensures
            ran <= ticks,
            run.rooms.wf(),
            run.tick == old(run).tick + ran,
            ran < ticks ==> !step_ready(*run),
        decreases ticks - ran,
    {
        if !ready(run) {
            break;
        }
        travel_step(run, rng, comet, &mut cues);
        ran = ran + 1;
    }
    let arrived = made_port(&cues.voyage);
    let jumped = jumped_ahead(&cues.omen);
    CatchUp { ticks: ran, arrived, jumped }
}

} // verus!
