//! A run's first moments: the ship as it leaves the yard, docked at the
//! Guild Station with the starter cargo stowed, the burner bolted on,
//! and the Guild's market alongside with its first visit's goods out.

use vstd::prelude::*;
use crate::sim::barter::{Barter, STOCK_MAX, is_wants, open, spec_stock_kinds, spec_tiles_of, stock_kinds, tiles_of, visit_row, visit_values};
use crate::sim::cargo::{KIND_COUNT, Kind, Loc, Piece, VARIANTS};
use crate::sim::deal::{roll_variant, spawn_all, spawn_in, spec_free_berth};
use crate::sim::encounter::{Drones, Encounters};
use crate::sim::event::Events;
use crate::sim::map::{COMET, GUILD, POI_COUNT, PoiId, ShipState, WANDERER};
use crate::sim::save::doc::SaveDoc;
use crate::sim::rats::Rats;
use crate::sim::Held;
use crate::sim::room::{lemma_market_fits, CABIN, MAX_ROOMS, RoomId, RoomKind, Rooms, Tile};

verus! {

/// The discovery ledger's mask of every kind: one bit per kind of the
/// table.
pub const KNOWN_ALL: u32 = 0xFFFF_FFFF;

/// The starter cargo and where it stands in the cabin: trade goods low
/// in the room, and the ship's fittings (the one light, the two windows
/// and the instruments) hung at their traditional berths, every one a
/// movable piece.
pub open spec fn starter_cargo() -> Seq<(Kind, u8, u8)> {
    seq![
        (Kind::ScrapAlloy, 4u8, 5u8),
        (Kind::PerfumeVial, 3u8, 3u8),
        (Kind::BrinePearls, 6u8, 3u8),
        (Kind::CeilingLamp, 18u8, 6u8),
        (Kind::Window, 4u8, 12u8),
        (Kind::Porthole, 1u8, 8u8),
        (Kind::ChartTank, 12u8, 5u8),
        (Kind::EtaGauge, 5u8, 11u8),
        (Kind::DestPreview, 3u8, 12u8),
        (Kind::LaunchLever, 5u8, 10u8),
    ]
}

/// Entry `i` of the starter cargo.
fn starter_entry(i: usize) -> (r: (Kind, u8, u8))
    requires
        i < 10,
    ensures
        r == starter_cargo()[i as int],
{
    match i {
        0 => (Kind::ScrapAlloy, 4, 5),
        1 => (Kind::PerfumeVial, 3, 3),
        2 => (Kind::BrinePearls, 6, 3),
        3 => (Kind::CeilingLamp, 18, 6),
        4 => (Kind::Window, 4, 12),
        5 => (Kind::Porthole, 1, 8),
        6 => (Kind::ChartTank, 12, 5),
        7 => (Kind::EtaGauge, 5, 11),
        8 => (Kind::DestPreview, 3, 12),
        _ => (Kind::LaunchLever, 5, 10),
    }
}

/// Whether `ps` is the starter cargo: entry `i` as piece `i`, standing
/// in the cabin at its berth, ungnawed, with a rolled variant.
pub open spec fn is_starter_board(ps: Seq<Piece>) -> bool {
    &&& ps.len() == starter_cargo().len()
    &&& forall|i: int|
        0 <= i < ps.len() ==> {
            &&& (#[trigger] ps[i]).id == i
            &&& ps[i].kind == starter_cargo()[i].0
            &&& ps[i].loc == Loc::Hold { room: CABIN, x: starter_cargo()[i].1, y: starter_cargo()[i].2 }
            &&& ps[i].variant < VARIANTS
            &&& !ps[i].gnawed
        }
}

/// The starter cargo, ids from 0 in table order, each with a rolled
/// variant.
pub fn stow_starter(rng: &mut fastrand::Rng) -> (r: Vec<Piece>)
    ensures
        is_starter_board(r@),
{
    let mut ps: Vec<Piece> = Vec::new();
    let mut i: usize = 0;
    while i < 10
        invariant
            i <= 10,
            ps@.len() == i,
            forall|j: int|
                0 <= j < i ==> {
                    &&& (#[trigger] ps@[j]).id == j
                    &&& ps@[j].kind == starter_cargo()[j].0
                    &&& ps@[j].loc == Loc::Hold { room: CABIN, x: starter_cargo()[j].1, y: starter_cargo()[j].2 }
                    &&& ps@[j].variant < VARIANTS
                    &&& !ps@[j].gnawed
                },
        decreases 10 - i,
    {
        let (kind, x, y) = starter_entry(i);
        let variant = roll_variant(rng);
        ps.push(Piece { id: i as u32, kind, variant, gnawed: false, loc: Loc::Hold { room: CABIN, x, y } });
        i = i + 1;
    }
    ps
}

/// Goods of `kinds`, one after another with the rolls `vs`, each set
/// down on the first free stock tile of `room` with the next id — or
/// not at all, when the room has no such tile left. The board after,
/// and the next id.
pub open spec fn stock_all(
    rooms: Rooms,
    ps: Seq<Piece>,
    next: u32,
    room: RoomId,
    kinds: Seq<Kind>,
    vs: Seq<u8>,
) -> (Seq<Piece>, u32)
    decreases kinds.len(),
{
    if kinds.len() == 0 || vs.len() != kinds.len() {
        (ps, next)
    } else {
        let (p1, n1) = stock_all(rooms, ps, next, room, kinds.drop_last(), vs.drop_last());
        spawn_all(rooms, p1, n1, room, kinds.last(), Tile::Stock, seq![vs.last()])
    }
}

/// Whether every roll is a variant.
pub open spec fn all_variants(vs: Seq<u8>) -> bool {
    forall|i: int| 0 <= i < vs.len() ==> #[trigger] vs[i] < VARIANTS
}

/// The goods a market alongside at `poi` puts out on visit `visit`,
/// given the board before: one kind per stock tile it fills.
#[verifier::opaque]
pub open spec fn trade_goods(
    seed: u64,
    poi: PoiId,
    visit: u32,
    karma: u32,
    paraded: bool,
    rooms: Rooms,
    room: RoomId,
    ps: Seq<Piece>,
) -> Seq<Kind> {
    spec_stock_kinds(seed, poi, visit, ps, karma, paraded, spec_tiles_of(rooms, room, Tile::Stock).len() as usize)
}

/// Put the goods of `kinds` out on the stock tiles of `room`, in order.
pub(crate) fn stock_in(
    rooms: &Rooms,
    pieces: &mut Vec<Piece>,
    next_piece: &mut u32,
    rng: &mut fastrand::Rng,
    room: RoomId,
    kinds: &Vec<Kind>,
)
    requires
        *old(next_piece) as int + kinds@.len() < u32::MAX,
    ensures
        exists|vs: Seq<u8>|
            #![trigger all_variants(vs)]
            vs.len() == kinds@.len() && all_variants(vs) && (final(pieces)@, *final(next_piece)) == stock_all(
                *rooms,
                old(pieces)@,
                *old(next_piece),
                room,
                kinds@,
                vs,
            ),
{
    let ghost p0 = pieces@;
    let ghost n0 = *next_piece;
    let ghost mut vs: Seq<u8> = Seq::empty();
    let mut k: usize = 0;
    while k < kinds.len()
        invariant
            k <= kinds@.len(),
            n0 as int + kinds@.len() < u32::MAX,
            *next_piece <= n0 + k,
            vs.len() == k,
            all_variants(vs),
            (pieces@, *next_piece) == stock_all(*rooms, p0, n0, room, kinds@.take(k as int), vs),
        decreases kinds@.len() - k,
    {
        let ghost before = (pieces@, *next_piece);
        let _ = spawn_in(rooms, pieces, next_piece, rng, room, kinds[k], Tile::Stock);
        proof {
            let v = choose|v: u8|
                v < VARIANTS && (pieces@, *next_piece) == spawn_all(
                    *rooms,
                    before.0,
                    before.1,
                    room,
                    kinds@[k as int],
                    Tile::Stock,
                    seq![v],
                );
            lemma_spawn_one(*rooms, before.0, before.1, room, kinds@[k as int], Tile::Stock, v);
            let nvs = vs.push(v);
            assert(kinds@.take(k + 1).drop_last() =~= kinds@.take(k as int));
            assert(kinds@.take(k + 1).last() == kinds@[k as int]);
            assert(nvs.drop_last() =~= vs);
            assert(seq![v].drop_last() =~= Seq::<u8>::empty());
            vs = nvs;
        }
        k = k + 1;
    }
    proof {
        assert(kinds@.take(kinds@.len() as int) =~= kinds@);
    }
}

/// Whether `b` is the barter of visit `visit` at `poi`: that station and
/// visit, and the wants its values that visit rank highest.
#[verifier::opaque]
pub open spec fn visit_barter(seed: u64, poi: PoiId, visit: u32, b: Barter) -> bool {
    b.station == poi && b.visit == visit && is_wants(visit_row(seed, poi, visit), b.wants)
}

/// Whether the ship has room for a market called off the cabin: a free
/// slot, and a walk of the cabin's doors that finds a berth.
#[verifier::opaque]
pub open spec fn market_fits(rooms: Rooms) -> bool {
    rooms.spec_count() < MAX_ROOMS && rooms.walk_open(RoomKind::Trade, CABIN)
}

/// Whether `after` is `before` with a market called off the cabin into
/// slot `room`, the lowest free one, at the first berth the walk finds.
#[verifier::opaque]
pub open spec fn market_called(before: Rooms, after: Rooms, room: RoomId) -> bool {
    &&& room as int == before.free_from(0)->0
    &&& exists|c: (RoomId, u8, u8)| #[trigger] after.walked(before, room as int, RoomKind::Trade, CABIN, c)
}

/// Call the market alongside at `poi` for visit `visit` and put its
/// goods out: the room spawned off the cabin, this visit's wants and
/// values, and one good per stock tile it fills, each with the next id
/// and a rolled variant. `None`, with nothing changed, when the ship has
/// no room for the market.
pub fn open_trade(
    seed: u64,
    poi: PoiId,
    visit: u32,
    karma: u32,
    paraded: bool,
    rooms: &mut Rooms,
    pieces: &mut Vec<Piece>,
    next_piece: &mut u32,
    rng: &mut fastrand::Rng,
) -> (r: Option<(RoomId, Barter, [u8; KIND_COUNT])>)
    requires
        old(rooms).wf(),
        (poi as int) < POI_COUNT,
        *old(next_piece) as int + STOCK_MAX < u32::MAX,
    ensures
        final(rooms).wf(),
        *final(next_piece) <= *old(next_piece) + STOCK_MAX,
        r is Some <==> market_fits(*old(rooms)),
        match r {
            None => {
                &&& final(rooms)@ == old(rooms)@
                &&& final(pieces)@ == old(pieces)@
                &&& *final(next_piece) == *old(next_piece)
            },
            Some((room, b, values)) => {
                &&& market_called(*old(rooms), *final(rooms), room)
                &&& final(rooms).kind_at(room as int) == Some(RoomKind::Trade)
                &&& visit_barter(seed, poi, visit, b)
                &&& values@ == visit_row(seed, poi, visit)
                &&& exists|vs: Seq<u8>|
                    #![trigger all_variants(vs)]
                    vs.len() == trade_goods(seed, poi, visit, karma, paraded, *final(rooms), room, old(pieces)@).len()
                        && all_variants(vs) && (final(pieces)@, *final(next_piece)) == stock_all(
                        *final(rooms),
                        old(pieces)@,
                        *old(next_piece),
                        room,
                        trade_goods(seed, poi, visit, karma, paraded, *final(rooms), room, old(pieces)@),
                        vs,
                    )
            },
        },
{
    proof {
        reveal(market_fits);
        reveal(market_called);
        reveal(trade_goods);
        reveal(visit_barter);
    }
    let room = match rooms.spawn(RoomKind::Trade, CABIN) {
        Ok(id) => id,
        Err(_) => return None,
    };
    proof {
        let c = choose|c: (RoomId, u8, u8)| #[trigger] rooms.walked(*old(rooms), room as int, RoomKind::Trade, CABIN, c);
        assert(rooms.walked(*old(rooms), room as int, RoomKind::Trade, CABIN, c));
    }
    let values = visit_values(seed, poi, visit);
    let b = open(seed, poi, visit);
    let cap = tiles_of(rooms, room, Tile::Stock).len();
    let kinds = stock_kinds(seed, poi, visit, pieces.as_slice(), karma, paraded, cap);
    assert(kinds@.len() <= STOCK_MAX);
    let ghost p1 = pieces@;
    let ghost n1 = *next_piece;
    stock_in(rooms, pieces, next_piece, rng, room, &kinds);
    proof {
        let vs = choose|vs: Seq<u8>|
            #![trigger all_variants(vs)]
            vs.len() == kinds@.len() && all_variants(vs) && (pieces@, *next_piece) == stock_all(*rooms, p1, n1, room, kinds@, vs);
        lemma_stock_grows(*rooms, p1, n1, room, kinds@);
        assert(stock_all(*rooms, p1, n1, room, kinds@, vs).1 <= n1 + kinds@.len());
    }
    Some((room, b, values))
}

/// The home ledger a fresh contractor starts with: the Guild is home
/// turf, every kind known there, and everywhere else is fog.
pub open spec fn home_ledger() -> Seq<u32> {
    Seq::new(POI_COUNT as nat, |i: int| if i == GUILD { KNOWN_ALL } else { 0u32 })
}

/// The visit counts of a fresh run: the Guild visited once.
pub open spec fn first_visits() -> Seq<u32> {
    Seq::new(POI_COUNT as nat, |i: int| if i == GUILD { 1u32 } else { 0u32 })
}

/// A run's whole integer state.
pub struct Run {
    pub seed: u64,
    pub tick: u64,
    pub paused: bool,
    pub warp: bool,
    pub ship: ShipState,
    pub selected: Option<PoiId>,
    pub rooms: Rooms,
    pub pieces: Vec<Piece>,
    pub next_piece: u32,
    pub marks: Vec<u32>,
    pub deliveries: u32,
    pub barter: Option<Barter>,
    pub values: [u8; KIND_COUNT],
    pub visits: Vec<u32>,
    pub legs: u64,
    pub events: Events,
    pub rats: Rats,
    pub encounters: Encounters,
    pub drones: Drones,
    pub parade_at: Option<u64>,
    pub comet_visit: Option<u64>,
    pub stoke: u64,
    pub karma: u32,
    pub familiar: Vec<u32>,
    /// What each crew member is carrying, if anything.
    pub held: Vec<Option<Held>>,
}

/// The ledger entry of station `i` in a fresh run.
fn home_entry(i: usize) -> (r: (u32, u32))
    ensures
        r == (if i == GUILD { (1u32, KNOWN_ALL) } else { (0u32, 0u32) }),
{
    if i == GUILD as usize {
        (1, KNOWN_ALL)
    } else {
        (0, 0)
    }
}

/// The visit counts and the discovery ledger of a fresh run.
fn fresh_ledgers() -> (r: (Vec<u32>, Vec<u32>))
    ensures
        r.0@ == first_visits(),
        r.1@ == home_ledger(),
{
    let mut visits: Vec<u32> = Vec::new();
    let mut familiar: Vec<u32> = Vec::new();
    let mut i: usize = 0;
    while i < POI_COUNT
        invariant
            i <= POI_COUNT,
            visits@.len() == i,
            familiar@.len() == i,
            forall|j: int| 0 <= j < i ==> #[trigger] visits@[j] == first_visits()[j],
            forall|j: int| 0 <= j < i ==> #[trigger] familiar@[j] == home_ledger()[j],
        decreases POI_COUNT - i,
    {
        let (v, f) = home_entry(i);
        visits.push(v);
        familiar.push(f);
        i = i + 1;
    }
    assert(visits@ =~= first_visits());
    assert(familiar@ =~= home_ledger());
    (visits, familiar)
}

/// Whether the board `ps` and next id `next` are the starter cargo
/// followed by a market's goods for visit `visit` at `poi`, put out on
/// the stock tiles of the market room called off the cabin of graph
/// `before` into `rooms`, with rolled variants.
#[verifier::opaque]
pub open spec fn market_out(seed: u64, poi: PoiId, visit: u32, before: Rooms, rooms: Rooms, ps: Seq<Piece>, next: u32) -> bool {
    exists|room: RoomId, vs: Seq<u8>|
        #![trigger stock_all(rooms, ps.take(10), 10, room, trade_goods(seed, poi, visit, 0, false, rooms, room, ps.take(10)), vs)]
        market_called(before, rooms, room) && rooms.kind_at(room as int) == Some(RoomKind::Trade) && vs.len()
            == trade_goods(
            seed,
            poi,
            visit,
            0,
            false,
            rooms,
            room,
            ps.take(10),
        ).len() && all_variants(vs) && (ps, next) == stock_all(
            rooms,
            ps.take(10),
            10,
            room,
            trade_goods(seed, poi, visit, 0, false, rooms, room, ps.take(10)),
            vs,
        )
}

/// A market stocked after the starter cargo leaves the starter cargo
/// first on the board.
proof fn lemma_market_out(
    seed: u64,
    poi: PoiId,
    visit: u32,
    before: Rooms,
    rooms: Rooms,
    starter: Seq<Piece>,
    ps: Seq<Piece>,
    next: u32,
    room: RoomId,
    kinds: Seq<Kind>,
    vs: Seq<u8>,
)
    requires
        starter.len() == 10,
        market_called(before, rooms, room),
        rooms.kind_at(room as int) == Some(RoomKind::Trade),
        kinds == trade_goods(seed, poi, visit, 0, false, rooms, room, starter),
        vs.len() == kinds.len(),
        all_variants(vs),
        (ps, next) == stock_all(rooms, starter, 10, room, kinds, vs),
    ensures
        ps.len() >= 10,
        ps.take(10) == starter,
        market_out(seed, poi, visit, before, rooms, ps, next),
{
    lemma_stock_keeps(rooms, starter, 10, room, kinds, vs);
    assert(ps.take(10) =~= starter);
    reveal(market_out);
    assert(stock_all(rooms, ps.take(10), 10, room, trade_goods(seed, poi, visit, 0, false, rooms, room, ps.take(10)), vs)
        == (ps, next));
}

/// A discovery row with nothing in it.
fn no_values() -> (r: [u8; KIND_COUNT])
    ensures
        r@ == Seq::new(KIND_COUNT as nat, |i: int| 0u8),
{
    let r = [0u8; KIND_COUNT];
    assert(r@ =~= Seq::new(KIND_COUNT as nat, |i: int| 0u8));
    r
}

/// The Guild's market called alongside the starter board, its first
/// visit's goods out: its wants and values, or none when the ship has
/// no room for it.
fn open_home_market(
    seed: u64,
    poi: PoiId,
    visit: u32,
    rooms: &mut Rooms,
    pieces: &mut Vec<Piece>,
    next_piece: &mut u32,
    rng: &mut fastrand::Rng,
) -> (r: (Option<Barter>, [u8; KIND_COUNT]))
    requires
        old(rooms).wf(),
        (poi as int) < POI_COUNT,
        old(pieces)@.len() == 10,
        *old(next_piece) == 10,
    ensures
        final(rooms).wf(),
        final(pieces)@.len() >= 10,
        final(pieces)@.take(10) == old(pieces)@,
        r.0 is Some <==> market_fits(*old(rooms)),
        match r.0 {
            Some(b) => {
                &&& visit_barter(seed, poi, visit, b)
                &&& r.1@ == visit_row(seed, poi, visit)
                &&& market_out(seed, poi, visit, *old(rooms), *final(rooms), final(pieces)@, *final(next_piece))
            },
            None => final(rooms)@ == old(rooms)@ && final(pieces)@ == old(pieces)@ && *final(next_piece) == 10 && r.1@ == Seq::new(
                KIND_COUNT as nat,
                |i: int| 0u8,
            ),
        },
{
    let ghost starter = pieces@;
    match open_trade(seed, poi, visit, 0, false, rooms, pieces, next_piece, rng) {
        Some((room, b, values)) => {
            proof {
                let kinds = trade_goods(seed, poi, visit, 0, false, *rooms, room, starter);
                let vs = choose|vs: Seq<u8>|
                    #![trigger all_variants(vs)]
                    vs.len() == kinds.len() && all_variants(vs) && (pieces@, *next_piece) == stock_all(
                        *rooms,
                        starter,
                        10,
                        room,
                        kinds,
                        vs,
                    );
                lemma_market_out(seed, poi, visit, *old(rooms), *rooms, starter, pieces@, *next_piece, room, kinds, vs);
            }
            (Some(b), values)
        },
        None => {
            assert(pieces@.take(10) =~= starter);
            (None, no_values())
        },
    }
}

/// How many crew members a run carries hands for.
pub const MAX_CREW: usize = 6;

/// Every crew member's hands, empty.
pub fn idle_hands() -> (r: Vec<Option<Held>>)
    ensures
        r@.len() == MAX_CREW,
        forall|k: int| 0 <= k < MAX_CREW ==> r@[k] is None,
{
    let mut r: Vec<Option<Held>> = Vec::new();
    let mut k: usize = 0;
    while k < MAX_CREW
        invariant
            k <= MAX_CREW,
            r@.len() == k,
            forall|j: int| 0 <= j < k ==> r@[j] is None,
        decreases MAX_CREW - k,
    {
        r.push(None);
        k = k + 1;
    }
    r
}

/// A market called alongside a ship just out of the yard takes room 2,
/// beside the cabin and the burner, and nothing else is aboard.
proof fn lemma_home_market_rooms(seed: u64, start: Rooms, rooms: Rooms, ps: Seq<Piece>, next: u32)
    requires
        market_out(seed, GUILD, 1, start, rooms, ps, next),
        start.free_from(0) == Some(2int),
        forall|id: int| id != CABIN && id != 1 ==> !#[trigger] start.present(id),
        start.kind_at(CABIN as int) == Some(RoomKind::Cabin),
        start.kind_at(1) == Some(RoomKind::Burner),
    ensures
        rooms.kind_at(CABIN as int) == Some(RoomKind::Cabin),
        rooms.kind_at(1) == Some(RoomKind::Burner),
        rooms.kind_at(2) == Some(RoomKind::Trade),
        forall|id: int| id != CABIN && id != 1 && id != 2 ==> !#[trigger] rooms.present(id),
{
    reveal(market_out);
    let (room, vs) = choose|room: RoomId, vs: Seq<u8>|
        #![trigger stock_all(rooms, ps.take(10), 10, room, trade_goods(seed, GUILD, 1, 0, false, rooms, room, ps.take(10)), vs)]
        market_called(start, rooms, room) && rooms.kind_at(room as int) == Some(RoomKind::Trade) && vs.len()
            == trade_goods(seed, GUILD, 1, 0, false, rooms, room, ps.take(10)).len() && all_variants(vs) && (ps, next)
            == stock_all(rooms, ps.take(10), 10, room, trade_goods(seed, GUILD, 1, 0, false, rooms, room, ps.take(10)), vs);
    reveal(market_called);
    assert(room == 2);
    let c = choose|c: (RoomId, u8, u8)| #[trigger] rooms.walked(start, 2, RoomKind::Trade, CABIN, c);
    assert(rooms.walked(start, 2, RoomKind::Trade, CABIN, c));
    assert(start.present(0));
    assert(start.present(1));
    assert(rooms.present(0) && rooms.present(1));
}

/// A run from a seed: docked at the Guild Station with the starter cargo
/// stowed, the burner bolted on, the Guild visited once and known
/// through and through, and the Guild's market alongside with its first
/// visit's goods out. Everything else starts at zero or empty.
pub fn new_run(seed: u64, rng: &mut fastrand::Rng) -> (r: Run)
    ensures
        r.seed == seed,
        r.tick == 0 && !r.paused && !r.warp && r.legs == 0 && r.deliveries == 0 && r.karma == 0 && r.stoke == 0,
        r.ship == ShipState::Docked(GUILD),
        r.selected is None && r.parade_at is None && r.comet_visit is None,
        r.marks@.len() == 0,
        r.visits@ == first_visits(),
        r.familiar@ == home_ledger(),
        r.events.phase == crate::sim::event::Phase::Idle && r.events.jump_at is None && r.events.leg_counter == 0,
        r.rats.rat is None && r.encounters.current is None && r.drones.drone is None,
        r.held@.len() == MAX_CREW && forall|k: int| 0 <= k < MAX_CREW ==> r.held@[k] is None,
        r.rooms.wf(),
        is_starter_board(r.pieces@.take(10)),
        r.pieces@.len() >= 10,
        r.rooms.kind_at(CABIN as int) == Some(RoomKind::Cabin),
        r.rooms.kind_at(1) == Some(RoomKind::Burner),
        r.rooms.kind_at(2) == Some(RoomKind::Trade),
        forall|id: int| id != CABIN && id != 1 && id != 2 ==> !#[trigger] r.rooms.present(id),
        r.barter matches Some(b) && visit_barter(seed, GUILD, 1, b),
        r.values@ == visit_row(seed, GUILD, 1),
        exists|start: Rooms|
            {
                &&& #[trigger] start.launched()
                &&& start.wf()
                &&& market_out(seed, GUILD, 1, start, r.rooms, r.pieces@, r.next_piece)
            },
{
    let mut rooms = Rooms::new();
    let ghost start = rooms;
    let mut pieces = stow_starter(rng);
    let mut next_piece: u32 = 10;
    let (visits, familiar) = fresh_ledgers();
    let (barter, values) = open_home_market(seed, GUILD, 1, &mut rooms, &mut pieces, &mut next_piece, rng);
    proof {
        assert(start.launched());
        lemma_market_fits(start);
        reveal(market_fits);
        assert(market_fits(start));
        lemma_home_market_rooms(seed, start, rooms, pieces@, next_piece);
    }
    Run {
        seed,
        tick: 0,
        paused: false,
        warp: false,
        ship: ShipState::Docked(GUILD),
        selected: None,
        rooms,
        pieces,
        next_piece,
        marks: Vec::new(),
        deliveries: 0,
        barter,
        values,
        visits,
        legs: 0,
        events: Events::new(),
        rats: Rats::new(),
        encounters: Encounters::new(),
        drones: Drones::new(),
        parade_at: None,
        comet_visit: None,
        stoke: 0,
        karma: 0,
        familiar,
        held: idle_hands(),
    }
}

/// Stocking a room counts the next id on by at most one per good.
pub proof fn lemma_stock_grows(rooms: Rooms, ps: Seq<Piece>, next: u32, room: RoomId, kinds: Seq<Kind>)
    ensures
        forall|vs: Seq<u8>| #[trigger] stock_all(rooms, ps, next, room, kinds, vs).1 <= next + kinds.len(),
    decreases kinds.len(),
{
    assert forall|vs: Seq<u8>| #[trigger] stock_all(rooms, ps, next, room, kinds, vs).1 <= next + kinds.len() by {
        if kinds.len() == 0 || vs.len() != kinds.len() {
        } else {
            lemma_stock_grows(rooms, ps, next, room, kinds.drop_last());
            let (p1, n1) = stock_all(rooms, ps, next, room, kinds.drop_last(), vs.drop_last());
            assert(n1 <= next + kinds.drop_last().len());
            lemma_spawn_one(rooms, p1, n1, room, kinds.last(), Tile::Stock, vs.last());
        }
    }
}

/// One fresh piece: set down on the first free berth of the class, or
/// not at all.
pub proof fn lemma_spawn_one(rooms: Rooms, ps: Seq<Piece>, next: u32, room: RoomId, kind: Kind, class: Tile, v: u8)
    ensures
        spawn_all(rooms, ps, next, room, kind, class, seq![v]) == match spec_free_berth(rooms, ps, room, kind, class) {
            Some(loc) => (ps.push(Piece { id: next, kind, variant: v, gnawed: false, loc }), (next + 1) as u32),
            None => (ps, next),
        },
{
    assert(seq![v].drop_last() =~= Seq::<u8>::empty());
    reveal_with_fuel(spawn_all, 2);
}

/// Stocking a room only adds pieces after the board it started from.
pub proof fn lemma_stock_keeps(rooms: Rooms, ps: Seq<Piece>, next: u32, room: RoomId, kinds: Seq<Kind>, vs: Seq<u8>)
    ensures
        stock_all(rooms, ps, next, room, kinds, vs).0.len() >= ps.len(),
        stock_all(rooms, ps, next, room, kinds, vs).0.take(ps.len() as int) == ps,
    decreases kinds.len(),
{
    if kinds.len() == 0 || vs.len() != kinds.len() {
        assert(ps.take(ps.len() as int) =~= ps);
    } else {
        lemma_stock_keeps(rooms, ps, next, room, kinds.drop_last(), vs.drop_last());
        let (p1, n1) = stock_all(rooms, ps, next, room, kinds.drop_last(), vs.drop_last());
        lemma_spawn_one(rooms, p1, n1, room, kinds.last(), Tile::Stock, vs.last());
        let after = spawn_all(rooms, p1, n1, room, kinds.last(), Tile::Stock, seq![vs.last()]);
        assert(after.0.take(ps.len() as int) =~= ps) by {
            assert(p1.take(ps.len() as int) =~= ps);
        }
    }
}


/// Whether a market stands alongside a run moored at `at`: a trading
/// port (not the comet, not `???`) with a market room attached.
pub open spec fn market_alongside(ship: ShipState, rooms: Rooms, visits: Seq<u32>) -> bool {
    ship matches ShipState::Docked(at) && at != COMET && at != WANDERER && (at as int) < POI_COUNT && (at as int)
        < visits.len() && exists|id: int| 0 <= id < MAX_ROOMS && #[trigger] rooms.kind_at(id) == Some(RoomKind::Trade)
}

/// A run taken up again from its document and the room graph it
/// replays. A counterparty is alongside exactly when its room is: the
/// market is derived from the graph, never stored beside it, and its
/// wants and values are those of the visit the document counts. Nobody
/// is carrying anything.
pub fn resume(doc: SaveDoc, rooms: Rooms) -> (r: Run)
    ensures
        r.seed == doc.seed && r.tick == doc.tick && r.warp == doc.warp && r.paused == doc.paused,
        r.deliveries == doc.deliveries && r.karma == doc.karma && r.legs == doc.legs && r.stoke == doc.stoke,
        r.familiar@ == doc.familiar@ && r.visits@ == doc.visits@,
        r.ship == doc.ship && r.selected == doc.selected,
        r.events.jump_at == doc.jump_at && r.events.phase == doc.phase && r.events.leg_counter == doc.legs,
        r.encounters.current == doc.encounter && r.drones.drone == doc.drone && r.rats.rat == doc.rat,
        r.parade_at == doc.parade_at && r.comet_visit == doc.comet_visit,
        r.rooms == rooms,
        r.marks@ == doc.marks@ && r.pieces@ == doc.pieces@ && r.next_piece == doc.next_piece,
        r.held@.len() == MAX_CREW && forall|k: int| 0 <= k < MAX_CREW ==> r.held@[k] is None,
        market_alongside(doc.ship, rooms, doc.visits@) ==> (r.barter matches Some(b) && b.station == doc.ship->Docked_0
            && visit_barter(doc.seed, b.station, doc.visits@[b.station as int], b) && r.values@ == visit_row(
            doc.seed,
            b.station,
            doc.visits@[b.station as int],
        )),
        !market_alongside(doc.ship, rooms, doc.visits@) ==> r.barter is None && r.values@ == Seq::new(
            KIND_COUNT as nat,
            |i: int| 0u8,
        ),
{
    let mut barter: Option<Barter> = None;
    let mut values = no_values();
    match doc.ship {
        ShipState::Docked(at) => {
            if at != COMET && at != WANDERER && (at as usize) < POI_COUNT && (at as usize) < doc.visits.len() {
                match rooms.find(RoomKind::Trade) {
                    Some(_) => {
                        let visit = doc.visits[at as usize];
                        values = visit_values(doc.seed, at, visit);
                        let b = open(doc.seed, at, visit);
                        proof {
                            reveal(visit_barter);
                        }
                        barter = Some(b);
                    },
                    None => {
                        assert(!market_alongside(doc.ship, rooms, doc.visits@));
                    },
                }
            }
        },
        _ => {},
    }
    Run {
        seed: doc.seed,
        tick: doc.tick,
        paused: doc.paused,
        warp: doc.warp,
        ship: doc.ship,
        selected: doc.selected,
        rooms,
        pieces: doc.pieces,
        next_piece: doc.next_piece,
        marks: doc.marks,
        deliveries: doc.deliveries,
        barter,
        values,
        visits: doc.visits,
        legs: doc.legs,
        events: Events { leg_counter: doc.legs, jump_at: doc.jump_at, phase: doc.phase },
        rats: Rats { rat: doc.rat },
        encounters: Encounters { current: doc.encounter },
        drones: Drones { drone: doc.drone },
        parade_at: doc.parade_at,
        comet_visit: doc.comet_visit,
        stoke: doc.stoke,
        karma: doc.karma,
        familiar: doc.familiar,
        held: idle_hands(),
    }
}

} // verus!
