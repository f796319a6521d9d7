//! The handshakes at a calling room's counter: what lies on its offer
//! area, what it has out on its own tiles, where it sets down goods that
//! have just become the player's, and the marks that steer its answer.
//!
//! Every answer here is a pure function of the room graph and the board,
//! so a deal replays exactly as it was struck.

use vstd::prelude::*;
use crate::sim::barter::{
    STOCK_MARKUP, ascending, compose, composed, lemma_composed_len, measurable, piece_value, sort_ids,
    spec_compose, spec_piece_value, spec_tiles_of, tile_cells, tiles_of,
};
use crate::sim::{Held, holds_id};
use crate::sim::cargo::{KIND_COUNT, VARIANTS};
use crate::sim::encounter::{Encounter, EncounterKind, Encounters, SALT_CASINO};
use crate::sim::map::ShipState;
use crate::sim::spec_splitmix;
use crate::sim::map::{HERMITAGE, PoiId, UMBRA};
use crate::sim::cargo::{
    Kind, Loc, Piece, find_piece, first_with_id, lemma_first_with_id_in, placement_legal, spec_placement,
};
use crate::sim::room::{RoomId, Rooms, Tile};
use vstd::relations::{sorted_by, total_ordering};

verus! {

/// Whether cell `a` comes before cell `b` in reading order: row by row,
/// left to right.
pub open spec fn reads_before(a: (u8, u8), b: (u8, u8)) -> bool {
    a.1 < b.1 || (a.1 == b.1 && a.0 < b.0)
}

/// Whether `c` is a cell of `room`'s net whose tile reads `class`.
pub open spec fn class_cell(rooms: Rooms, room: RoomId, class: Tile, c: (u8, u8)) -> bool {
    &&& rooms.kind_at(room as int) matches Some(k)
    &&& c.0 < k.spec_grid().0
    &&& c.1 < k.spec_grid().1
    &&& k.spec_tile_of(c.0 as int, c.1 as int) == Some(class)
}

/// Whether a piece `id` of `kind` may stand at cell `c` of `room`.
pub open spec fn sets_down(rooms: Rooms, pieces: Seq<Piece>, id: u32, kind: Kind, room: RoomId, c: (u8, u8)) -> bool {
    spec_placement(rooms, pieces, id, kind, room, c.0, c.1) is Ok
}

/// Whether `r` is the first berth of class `class` in `room`, in reading
/// order, that takes a piece `id` of `kind` — `None` when none does.
pub open spec fn first_berth(
    rooms: Rooms,
    pieces: Seq<Piece>,
    room: RoomId,
    id: u32,
    kind: Kind,
    class: Tile,
    r: Option<Loc>,
) -> bool {
    match r {
        Some(loc) => loc matches Loc::Hold { room: at, x, y } && at == room && class_cell(rooms, room, class, (x, y))
            && sets_down(rooms, pieces, id, kind, room, (x, y)) && forall|c: (u8, u8)|
            #[trigger] class_cell(rooms, room, class, c) && reads_before(c, (x, y)) ==> !sets_down(
                rooms,
                pieces,
                id,
                kind,
                room,
                c,
            ),
        None => forall|c: (u8, u8)|
            #[trigger] class_cell(rooms, room, class, c) ==> !sets_down(rooms, pieces, id, kind, room, c),
    }
}

/// Whether some berth of class `class` in `room` takes a piece `id` of
/// `kind`.
pub open spec fn any_berth(rooms: Rooms, pieces: Seq<Piece>, room: RoomId, id: u32, kind: Kind, class: Tile) -> bool {
    exists|c: (u8, u8)| #[trigger] class_cell(rooms, room, class, c) && sets_down(rooms, pieces, id, kind, room, c)
}

/// Whether `r` is where `room` sets down goods `id` of `kind` that have
/// just become the player's: its own ordinary deck first, then its offer
/// area, so a cramped room still hands over what it agreed to.
pub open spec fn deck_answer(rooms: Rooms, pieces: Seq<Piece>, room: RoomId, id: u32, kind: Kind, r: Option<Loc>) -> bool {
    if any_berth(rooms, pieces, room, id, kind, Tile::Plain) {
        first_berth(rooms, pieces, room, id, kind, Tile::Plain, r)
    } else {
        first_berth(rooms, pieces, room, id, kind, Tile::Offer, r)
    }
}

/// At most one berth is the first: the answer is a function of the board.
pub proof fn lemma_first_berth_unique(
    rooms: Rooms,
    pieces: Seq<Piece>,
    room: RoomId,
    id: u32,
    kind: Kind,
    class: Tile,
    a: Option<Loc>,
    b: Option<Loc>,
)
    requires
        first_berth(rooms, pieces, room, id, kind, class, a),
        first_berth(rooms, pieces, room, id, kind, class, b),
    ensures
        a == b,
{
    match (a, b) {
        (Some(la), Some(lb)) => {
            let (ax, ay) = match la {
                Loc::Hold { x, y, .. } => (x, y),
                _ => (0u8, 0u8),
            };
            let (bx, by) = match lb {
                Loc::Hold { x, y, .. } => (x, y),
                _ => (0u8, 0u8),
            };
            if reads_before((ax, ay), (bx, by)) {
                assert(class_cell(rooms, room, class, (ax, ay)));
            } else if reads_before((bx, by), (ax, ay)) {
                assert(class_cell(rooms, room, class, (bx, by)));
            }
        },
        (Some(la), None) => {
            if let Loc::Hold { x, y, .. } = la {
                assert(class_cell(rooms, room, class, (x, y)));
            }
        },
        (None, Some(lb)) => {
            if let Loc::Hold { x, y, .. } = lb {
                assert(class_cell(rooms, room, class, (x, y)));
            }
        },
        (None, None) => {},
    }
}

/// Where `room` sets down goods `id` of `kind`, as a value.
pub open spec fn spec_deck_berth(rooms: Rooms, pieces: Seq<Piece>, room: RoomId, id: u32, kind: Kind) -> Option<Loc> {
    choose|r: Option<Loc>| deck_answer(rooms, pieces, room, id, kind, r)
}

/// The id a placement check asks about: the piece being moved, or one no
/// piece carries.
pub open spec fn moving_id(ignore: Option<u32>) -> u32 {
    match ignore {
        Some(i) => i,
        None => u32::MAX,
    }
}

/// The first free berth of class `class` in `room` for `kind`, ignoring
/// piece `ignore` (the piece being moved) when there is one.
pub fn free_berth_in(
    rooms: &Rooms,
    pieces: &[Piece],
    room: RoomId,
    ignore: Option<u32>,
    kind: Kind,
    class: Tile,
) -> (r: Option<Loc>)
    ensures
        first_berth(*rooms, pieces@, room, moving_id(ignore), kind, class, r),
{
    let id = match ignore {
        Some(i) => i,
        None => u32::MAX,
    };
    let cells = tiles_of(rooms, room, class);
    let mut k: usize = 0;
    while k < cells.len()
        invariant
            k <= cells@.len(),
            id == moving_id(ignore),
            tile_cells(*rooms, room, class, cells@),
            forall|j: int| 0 <= j < k ==> !sets_down(*rooms, pieces@, id, kind, room, #[trigger] cells@[j]),
        decreases cells@.len() - k,
    {
        let (x, y) = cells[k];
        if placement_legal(rooms, pieces, id, kind, room, x, y) {
            proof {
                assert(class_cell(*rooms, room, class, (x, y)));
                assert forall|c: (u8, u8)|
                    #[trigger] class_cell(*rooms, room, class, c) && reads_before(c, (x, y)) implies !sets_down(
                        *rooms,
                        pieces@,
                        id,
                        kind,
                        room,
                        c,
                    ) by {
                    let kd = rooms.kind_at(room as int)->0;
                    assert(kd.spec_tile_of(c.0 as int, c.1 as int) == Some(class));
                    let j = choose|j: int| 0 <= j < cells@.len() && cells@[j] == (c.0 as int as u8, c.1 as int as u8);
                    assert(cells@[j] == c);
                    if j >= k {
                        if j > k {
                            assert(reads_before(cells@[k as int], cells@[j]));
                        }
                    }
                }
            }
            return Some(Loc::Hold { room, x, y });
        }
        k = k + 1;
    }
    proof {
        assert forall|c: (u8, u8)| #[trigger] class_cell(*rooms, room, class, c) implies !sets_down(
            *rooms,
            pieces@,
            id,
            kind,
            room,
            c,
        ) by {
            let kd = rooms.kind_at(room as int)->0;
            assert(kd.spec_tile_of(c.0 as int, c.1 as int) == Some(class));
            let j = choose|j: int| 0 <= j < cells@.len() && cells@[j] == (c.0 as int as u8, c.1 as int as u8);
            assert(cells@[j] == c);
        }
    }
    None
}

/// Where `room` sets down goods `id` of `kind` that have just become the
/// player's: its own ordinary deck first, then its offer area.
pub fn deck_berth(rooms: &Rooms, pieces: &[Piece], room: RoomId, id: u32, kind: Kind) -> (r: Option<Loc>)
    ensures
        deck_answer(*rooms, pieces@, room, id, kind, r),
        r == spec_deck_berth(*rooms, pieces@, room, id, kind),
{
    let plain = free_berth_in(rooms, pieces, room, Some(id), kind, Tile::Plain);
    let r = match plain {
        Some(loc) => Some(loc),
        None => free_berth_in(rooms, pieces, room, Some(id), kind, Tile::Offer),
    };
    proof {
        if plain is Some {
            if let Some(Loc::Hold { x, y, .. }) = plain {
                assert(class_cell(*rooms, room, Tile::Plain, (x, y)));
            }
        } else if any_berth(*rooms, pieces@, room, id, kind, Tile::Plain) {
            let c = choose|c: (u8, u8)|
                #[trigger] class_cell(*rooms, room, Tile::Plain, c) && sets_down(*rooms, pieces@, id, kind, room, c);
            assert(!sets_down(*rooms, pieces@, id, kind, room, c));
        }
        assert(deck_answer(*rooms, pieces@, room, id, kind, r));
        let other = spec_deck_berth(*rooms, pieces@, room, id, kind);
        assert(deck_answer(*rooms, pieces@, room, id, kind, other));
        if any_berth(*rooms, pieces@, room, id, kind, Tile::Plain) {
            lemma_first_berth_unique(*rooms, pieces@, room, id, kind, Tile::Plain, r, other);
        } else {
            lemma_first_berth_unique(*rooms, pieces@, room, id, kind, Tile::Offer, r, other);
        }
    }
    r
}

/// Whether `p` stands on a tile of class `class` of `room` itself.
pub open spec fn on_tile_of(rooms: Rooms, room: RoomId, class: Tile, p: Piece) -> bool {
    &&& p.loc matches Loc::Hold { room: at, x, y }
    &&& at == room
    &&& rooms.tile_at(at as int, x as int, y as int) == Some(class)
}

/// The ids of the first `n` pieces standing on `class` tiles of `room`,
/// in board order.
pub open spec fn ids_on(rooms: Rooms, pieces: Seq<Piece>, room: RoomId, class: Tile, n: int) -> Seq<u32>
    decreases n,
{
    if n <= 0 {
        Seq::empty()
    } else {
        ids_on(rooms, pieces, room, class, n - 1) + if on_tile_of(rooms, room, class, pieces[n - 1]) {
            seq![pieces[n - 1].id]
        } else {
            Seq::empty()
        }
    }
}

/// Ids in ascending order.
pub open spec fn id_le() -> spec_fn(u32, u32) -> bool {
    |a: u32, b: u32| a <= b
}

/// The standing proposal at `room`: the ids on its offer area, ascending.
pub open spec fn spec_proposal(rooms: Rooms, pieces: Seq<Piece>, room: RoomId) -> Seq<u32> {
    choose|s: Seq<u32>|
        sorted_by(s, id_le()) && s.to_multiset() == ids_on(rooms, pieces, room, Tile::Offer, pieces.len() as int).to_multiset()
}

/// Ascending order is a total order.
proof fn lemma_id_le_total()
    ensures
        total_ordering(id_le()),
{
}

/// Pieces of the player's lying on `room`'s own offer area, ids
/// ascending.
pub fn proposal(rooms: &Rooms, pieces: &[Piece], room: RoomId) -> (r: Vec<u32>)
    ensures
        r@ == spec_proposal(*rooms, pieces@, room),
        r@.to_multiset() == ids_on(*rooms, pieces@, room, Tile::Offer, pieces@.len() as int).to_multiset(),
        ascending(r@),
{
    let mut ids: Vec<u32> = Vec::new();
    let mut i: usize = 0;
    while i < pieces.len()
        invariant
            i <= pieces@.len(),
            ids@ == ids_on(*rooms, pieces@, room, Tile::Offer, i as int),
        decreases pieces@.len() - i,
    {
        let piece = pieces[i];
        let ghost before = ids@;
        if let Loc::Hold { room: at, x, y } = piece.loc {
            if at == room && rooms.tile(at, x, y) == Some(Tile::Offer) {
                ids.push(piece.id);
            }
        }
        proof {
            if on_tile_of(*rooms, room, Tile::Offer, piece) {
                assert(ids@ =~= before + seq![piece.id]);
            } else {
                assert(ids@ =~= before + Seq::<u32>::empty());
            }
        }
        i = i + 1;
    }
    let r = sort_ids(&ids);
    proof {
        let target = ids_on(*rooms, pieces@, room, Tile::Offer, pieces@.len() as int);
        assert(sorted_by(r@, id_le()));
        let other = spec_proposal(*rooms, pieces@, room);
        assert(sorted_by(other, id_le()) && other.to_multiset() == target.to_multiset());
        lemma_id_le_total();
        vstd::seq_lib::lemma_sorted_unique(r@, other, id_le());
    }
    r
}

/// One entry of a room's stock: row, column, id.
pub type StockEntry = (u8, u8, u32);

/// Reading order on stock entries, ties broken by id.
pub open spec fn entry_before(a: StockEntry, b: StockEntry) -> bool {
    a.0 < b.0 || (a.0 == b.0 && (a.1 < b.1 || (a.1 == b.1 && a.2 <= b.2)))
}

/// [`entry_before`] as a relation.
pub open spec fn entry_le() -> spec_fn(StockEntry, StockEntry) -> bool {
    |a: StockEntry, b: StockEntry| entry_before(a, b)
}

/// Reading order on stock entries is a total order.
proof fn lemma_entry_le_total()
    ensures
        total_ordering(entry_le()),
{
    assert forall|a: StockEntry, b: StockEntry| #[trigger] entry_le()(a, b) && #[trigger] entry_le()(b, a) implies a
        == b by {
        assert(a.0 == b.0 && a.1 == b.1 && a.2 == b.2);
    }
}

/// The stock entries of the first `n` pieces standing on `room`'s own
/// stock tiles, in board order.
pub open spec fn stock_entries(rooms: Rooms, pieces: Seq<Piece>, room: RoomId, n: int) -> Seq<StockEntry>
    decreases n,
{
    if n <= 0 {
        Seq::empty()
    } else {
        stock_entries(rooms, pieces, room, n - 1) + if on_tile_of(rooms, room, Tile::Stock, pieces[n - 1]) {
            match pieces[n - 1].loc {
                Loc::Hold { x, y, .. } => seq![(y, x, pieces[n - 1].id)],
                _ => Seq::empty(),
            }
        } else {
            Seq::empty()
        }
    }
}

/// The stock entries of `room`, in reading order.
pub open spec fn sorted_stock(rooms: Rooms, pieces: Seq<Piece>, room: RoomId) -> Seq<StockEntry> {
    choose|t: Seq<StockEntry>|
        sorted_by(t, entry_le()) && t.to_multiset() == stock_entries(rooms, pieces, room, pieces.len() as int).to_multiset()
}

/// The id of a stock entry.
pub open spec fn entry_id(e: StockEntry) -> u32 {
    e.2
}

/// The room's own goods, in tile reading order.
pub open spec fn spec_stock_of(rooms: Rooms, pieces: Seq<Piece>, room: RoomId) -> Seq<u32> {
    sorted_stock(rooms, pieces, room).map_values(|e: StockEntry| entry_id(e))
}

/// Whether stock entry `a` comes no later than `b`.
fn reads_no_later(a: StockEntry, b: StockEntry) -> (r: bool)
    ensures
        r == entry_before(a, b),
{
    a.0 < b.0 || (a.0 == b.0 && (a.1 < b.1 || (a.1 == b.1 && a.2 <= b.2)))
}

/// Stock entries in reading order.
fn sort_entries(entries: &Vec<StockEntry>) -> (r: Vec<StockEntry>)
    ensures
        r@.to_multiset() == entries@.to_multiset(),
        sorted_by(r@, entry_le()),
{
    let mut out: Vec<StockEntry> = Vec::new();
    let mut i: usize = 0;
    assert(entries@.take(0) =~= Seq::<StockEntry>::empty());
    assert(out@ =~= Seq::<StockEntry>::empty());
    while i < entries.len()
        invariant
            i <= entries@.len(),
            out@.to_multiset() == entries@.take(i as int).to_multiset(),
            forall|a: int, b: int| 0 <= a < b < out@.len() ==> entry_before(#[trigger] out@[a], #[trigger] out@[b]),
        decreases entries@.len() - i,
    {
        let c = entries[i];
        let mut p: usize = 0;
        while p < out.len() && reads_no_later(out[p], c)
            invariant
                p <= out@.len(),
                forall|a: int, b: int|
                    0 <= a < b < out@.len() ==> entry_before(#[trigger] out@[a], #[trigger] out@[b]),
                forall|j: int| 0 <= j < p ==> entry_before(#[trigger] out@[j], c),
            decreases out@.len() - p,
        {
            p = p + 1;
        }
        let ghost before = out@;
        out.insert(p, c);
        proof {
            assert(entries@.take(i + 1) =~= entries@.take(i as int).push(c));
            assert(out@ == before.insert(p as int, c));
            vstd::seq_lib::to_multiset_insert(before, p as int, c);
            vstd::seq_lib::to_multiset_build(entries@.take(i as int), c);
            if p < before.len() {
                assert(!entry_before(before[p as int], c));
            }
            assert forall|a: int, b: int| 0 <= a < b < out@.len() implies entry_before(
                #[trigger] out@[a],
                #[trigger] out@[b],
            ) by {
                if b < p {
                    assert(out@[a] == before[a] && out@[b] == before[b]);
                } else if b == p {
                    assert(out@[a] == before[a]);
                } else if a < p {
                    assert(out@[a] == before[a] && out@[b] == before[b - 1]);
                    assert(entry_before(before[a], c));
                    if p < before.len() {
                        assert(entry_before(before[p as int], before[b - 1]) || p == b - 1);
                    }
                } else if a == p {
                    assert(out@[b] == before[b - 1]);
                    assert(entry_before(before[p as int], before[b - 1]) || p == b - 1);
                } else {
                    assert(out@[a] == before[a - 1] && out@[b] == before[b - 1]);
                }
            }
        }
        i = i + 1;
    }
    assert(entries@.take(entries@.len() as int) =~= entries@);
    assert forall|a: int, b: int| 0 <= a < b < out@.len() implies #[trigger] entry_le()(out@[a], out@[b]) by {
        assert(entry_before(out@[a], out@[b]));
    }
    out
}

/// The room's own goods, in tile reading order: row by row, left to
/// right, ties by id.
pub fn stock_of(rooms: &Rooms, pieces: &[Piece], room: RoomId) -> (r: Vec<u32>)
    ensures
        r@ == spec_stock_of(*rooms, pieces@, room),
        r@.len() <= pieces@.len(),
{
    let mut entries: Vec<StockEntry> = Vec::new();
    let mut i: usize = 0;
    while i < pieces.len()
        invariant
            i <= pieces@.len(),
            entries@ == stock_entries(*rooms, pieces@, room, i as int),
        decreases pieces@.len() - i,
    {
        let piece = pieces[i];
        let ghost before = entries@;
        if let Loc::Hold { room: at, x, y } = piece.loc {
            if at == room && rooms.tile(at, x, y) == Some(Tile::Stock) {
                entries.push((y, x, piece.id));
            }
        }
        proof {
            if on_tile_of(*rooms, room, Tile::Stock, piece) {
                if let Loc::Hold { x, y, .. } = piece.loc {
                    assert(entries@ =~= before + seq![(y, x, piece.id)]);
                }
            } else {
                assert(entries@ =~= before + Seq::<StockEntry>::empty());
            }
        }
        i = i + 1;
    }
    let sorted = sort_entries(&entries);
    proof {
        let other = sorted_stock(*rooms, pieces@, room);
        assert(sorted_by(other, entry_le()) && other.to_multiset() == entries@.to_multiset());
        lemma_entry_le_total();
        vstd::seq_lib::lemma_sorted_unique(sorted@, other, entry_le());
    }
    let mut out: Vec<u32> = Vec::new();
    let mut k: usize = 0;
    while k < sorted.len()
        invariant
            k <= sorted@.len(),
            out@.len() == k,
            forall|j: int| 0 <= j < k ==> #[trigger] out@[j] == sorted@[j].2,
        decreases sorted@.len() - k,
    {
        out.push(sorted[k].2);
        k = k + 1;
    }
    proof {
        assert(out@ =~= sorted@.map_values(|e: StockEntry| entry_id(e)));
        lemma_stock_entries_len(*rooms, pieces@, room, pieces@.len() as int);
        vstd::seq_lib::to_multiset_len(sorted@);
        vstd::seq_lib::to_multiset_len(entries@);
    }
    out
}

/// Flip the player's mark on stock piece `id`: *I want that one*. A new
/// mark joins the others in ascending order; an old one is taken off.
/// Returns whether the piece is marked now.
pub fn toggle_mark(marks: &mut Vec<u32>, id: u32) -> (on: bool)
    ensures
        on == !old(marks)@.contains(id),
        !on ==> exists|k: int|
            0 <= k < old(marks)@.len() && old(marks)@[k] == id && (forall|j: int|
                0 <= j < k ==> old(marks)@[j] != id) && final(marks)@ == old(marks)@.remove(k),
        on ==> final(marks)@.to_multiset() == old(marks)@.push(id).to_multiset() && ascending(final(marks)@),
{
    let mut at: usize = 0;
    while at < marks.len()
        invariant
            marks@ == old(marks)@,
            at <= marks@.len(),
            forall|j: int| 0 <= j < at ==> marks@[j] != id,
        decreases marks@.len() - at,
    {
        if marks[at] == id {
            marks.remove(at);
            proof {
                assert(old(marks)@[at as int] == id);
            }
            return false;
        }
        at = at + 1;
    }
    proof {
        assert(!old(marks)@.contains(id)) by {
            if old(marks)@.contains(id) {
                let j = choose|j: int| 0 <= j < old(marks)@.len() && old(marks)@[j] == id;
                assert(marks@[j] != id);
            }
        }
    }
    marks.push(id);
    let sorted = sort_ids(marks);
    *marks = sorted;
    true
}

/// What lifting each of `ids` in turn onto `room`'s deck makes of the
/// board: each found piece moves to where the room sets it down, when
/// there is such a place, and the ids actually lifted, in order.
pub open spec fn lift(rooms: Rooms, pieces: Seq<Piece>, room: RoomId, ids: Seq<u32>) -> (Seq<Piece>, Seq<u32>)
    decreases ids.len(),
{
    if ids.len() == 0 {
        (pieces, Seq::empty())
    } else {
        let (p1, l1) = lift(rooms, pieces, room, ids.drop_last());
        let id = ids.last();
        match first_with_id(p1, id, 0) {
            None => (p1, l1),
            Some(i) => match spec_deck_berth(rooms, p1, room, id, p1[i].kind) {
                Some(loc) => (p1.update(i, Piece { loc, ..p1[i] }), l1.push(id)),
                None => (p1, l1),
            },
        }
    }
}

/// A lift that lifted nothing left the board as it was.
proof fn lemma_lift_nothing(rooms: Rooms, pieces: Seq<Piece>, room: RoomId, ids: Seq<u32>)
    ensures
        lift(rooms, pieces, room, ids).1.len() == 0 ==> lift(rooms, pieces, room, ids).0 == pieces,
    decreases ids.len(),
{
    if ids.len() > 0 {
        lemma_lift_nothing(rooms, pieces, room, ids.drop_last());
    }
}

/// Whether a mark is on `marks`.
pub open spec fn marked(marks: Seq<u32>) -> spec_fn(u32) -> bool {
    |id: u32| marks.contains(id)
}

/// Whether a mark is none of `lifted`.
pub open spec fn not_lifted(lifted: Seq<u32>) -> spec_fn(u32) -> bool {
    |id: u32| !lifted.contains(id)
}

/// The handshake in a wreck: nobody is watching, and what the player
/// marked is what they carry. Each marked piece of the room's stock, in
/// tile reading order, moves to where the room sets down goods that have
/// become the player's; their marks come off. Returns whether anything
/// was lifted — when nothing was, nothing changed.
pub fn claim_salvage(rooms: &Rooms, pieces: &mut Vec<Piece>, marks: &mut Vec<u32>, room: RoomId) -> (r: bool)
    ensures
        ({
            let claimed = spec_stock_of(*rooms, old(pieces)@, room).filter(marked(old(marks)@));
            let (after, lifted) = lift(*rooms, old(pieces)@, room, claimed);
            &&& r == (lifted.len() > 0)
            &&& r ==> final(pieces)@ == after && final(marks)@ == old(marks)@.filter(not_lifted(lifted))
            &&& !r ==> final(pieces)@ == old(pieces)@ && final(marks)@ == old(marks)@
        }),
{
    let ghost p0 = pieces@;
    let ghost m0 = marks@;
    let stock = stock_of(rooms, pieces.as_slice(), room);
    let ghost keep = marked(m0);
    let mut claimed: Vec<u32> = Vec::new();
    let mut i: usize = 0;
    while i < stock.len()
        invariant
            marks@ == m0,
            keep == marked(m0),
            i <= stock@.len(),
            claimed@ == stock@.take(i as int).filter(keep),
        decreases stock@.len() - i,
    {
        let id = stock[i];
        proof {
            reveal(Seq::filter);
            assert(stock@.take(i + 1).drop_last() =~= stock@.take(i as int));
            assert(stock@.take(i + 1).last() == id);
        }
        let mut on = false;
        let mut j: usize = 0;
        while j < marks.len()
            invariant
                j <= marks@.len(),
                on == exists|k: int| 0 <= k < j && marks@[k] == id,
            decreases marks@.len() - j,
        {
            if marks[j] == id {
                on = true;
            }
            j = j + 1;
        }
        if on {
            claimed.push(id);
        }
        i = i + 1;
    }
    proof {
        assert(stock@.take(stock@.len() as int) =~= stock@);
    }
    let mut lifted: Vec<u32> = Vec::new();
    let mut k: usize = 0;
    while k < claimed.len()
        invariant
            k <= claimed@.len(),
            (pieces@, lifted@) == lift(*rooms, p0, room, claimed@.take(k as int)),
            marks@ == m0,
        decreases claimed@.len() - k,
    {
        let id = claimed[k];
        let ghost p1 = pieces@;
        let ghost l1 = lifted@;
        proof {
            assert(claimed@.take(k + 1).drop_last() =~= claimed@.take(k as int));
            assert(claimed@.take(k + 1).last() == id);
            assert(lift(*rooms, p0, room, claimed@.take(k + 1)) == match first_with_id(p1, id, 0) {
                None => (p1, l1),
                Some(i) => match spec_deck_berth(*rooms, p1, room, id, p1[i].kind) {
                    Some(loc) => (p1.update(i, Piece { loc, ..p1[i] }), l1.push(id)),
                    None => (p1, l1),
                },
            });
        }
        let board = pieces.as_slice();
        let found = find_piece(board, id);
        match found {
            Some(index) => {
                let kind = pieces[index].kind;
                proof {
                    assert(first_with_id(p1, id, 0) == Some(index as int));
                }
                let berth = deck_berth(rooms, pieces.as_slice(), room, id, kind);
                proof {
                    assert(berth == spec_deck_berth(*rooms, p1, room, id, p1[index as int].kind));
                }
                match berth {
                    Some(loc) => {
                        let mut moved = pieces[index];
                        moved.loc = loc;
                        pieces.set(index, moved);
                        lifted.push(id);
                        proof {
                            assert(pieces@ =~= p1.update(index as int, Piece { loc, ..p1[index as int] }));
                        }
                    },
                    None => {},
                }
            },
            None => {},
        }
        k = k + 1;
    }
    proof {
        assert(claimed@.take(claimed@.len() as int) =~= claimed@);
        lemma_lift_nothing(*rooms, p0, room, claimed@);
    }
    if lifted.len() == 0 {
        return false;
    }
    let ghost gone = not_lifted(lifted@);
    let mut kept: Vec<u32> = Vec::new();
    let mut i: usize = 0;
    while i < marks.len()
        invariant
            marks@ == m0,
            gone == not_lifted(lifted@),
            i <= m0.len(),
            kept@ == m0.take(i as int).filter(gone),
        decreases m0.len() - i,
    {
        let id = marks[i];
        proof {
            reveal(Seq::filter);
            assert(m0.take(i + 1).drop_last() =~= m0.take(i as int));
            assert(m0.take(i + 1).last() == id);
        }
        let mut hit = false;
        let mut j: usize = 0;
        while j < lifted.len()
            invariant
                j <= lifted@.len(),
                hit == exists|q: int| 0 <= q < j && lifted@[q] == id,
            decreases lifted@.len() - j,
        {
            if lifted[j] == id {
                hit = true;
            }
            j = j + 1;
        }
        if !hit {
            kept.push(id);
        }
        i = i + 1;
    }
    proof {
        assert(m0.take(m0.len() as int) =~= m0);
    }
    *marks = kept;
    true
}

/// What piece `id` is worth on the board under this visit's `values`:
/// the first piece carrying the id, priced by the one per-piece rule, or
/// nothing when no piece carries it.
pub open spec fn worth(rooms: Rooms, pieces: Seq<Piece>, values: Seq<u8>, gnaw: bool, id: u32) -> int {
    match first_with_id(pieces, id, 0) {
        Some(i) => spec_piece_value(rooms, pieces[i], pieces, values, gnaw),
        None => 0,
    }
}

/// What `ids` are worth together.
pub open spec fn worth_sum(rooms: Rooms, pieces: Seq<Piece>, values: Seq<u8>, gnaw: bool, ids: Seq<u32>) -> int
    decreases ids.len(),
{
    if ids.len() == 0 {
        0
    } else {
        worth_sum(rooms, pieces, values, gnaw, ids.drop_last()) + worth(rooms, pieces, values, gnaw, ids.last())
    }
}

/// The room's stock as the candidates a composition weighs: each piece
/// at its worth plus the room's markup, and whether the player marked it.
pub open spec fn offer_candidates(
    rooms: Rooms,
    pieces: Seq<Piece>,
    values: Seq<u8>,
    gnaw: bool,
    marks: Seq<u32>,
    stock: Seq<u32>,
) -> Seq<(u32, u32, bool)> {
    stock.map_values(|id: u32| (id, (worth(rooms, pieces, values, gnaw, id) + STOCK_MARKUP) as u32, marks.contains(id)))
}

/// What `room` composes against the standing proposal: the best pile of
/// its own stock the proposal's worth covers, marked pieces preferred.
pub open spec fn spec_compose_for(
    rooms: Rooms,
    pieces: Seq<Piece>,
    values: Seq<u8>,
    gnaw: bool,
    marks: Seq<u32>,
    room: RoomId,
) -> Seq<u32> {
    spec_compose(
        worth_sum(rooms, pieces, values, gnaw, spec_proposal(rooms, pieces, room)) as u32,
        offer_candidates(rooms, pieces, values, gnaw, marks, spec_stock_of(rooms, pieces, room)),
    )
}

/// Whether every piece sits where its worth can be measured.
pub open spec fn all_measurable(pieces: Seq<Piece>) -> bool {
    forall|i: int| 0 <= i < pieces.len() ==> measurable(#[trigger] pieces[i])
}

/// No piece is worth more than its kind's top value and both bonuses.
proof fn lemma_worth_small(rooms: Rooms, pieces: Seq<Piece>, values: Seq<u8>, gnaw: bool, id: u32)
    ensures
        0 <= worth(rooms, pieces, values, gnaw, id) <= 258,
{
    if let Some(i) = first_with_id(pieces, id, 0) {
        let k = pieces[i].kind.spec_index();
        assert(0 <= values[k] <= 255);
    }
}

/// Ids together are worth at most their count times the dearest piece.
proof fn lemma_worth_sum_small(rooms: Rooms, pieces: Seq<Piece>, values: Seq<u8>, gnaw: bool, ids: Seq<u32>)
    ensures
        0 <= worth_sum(rooms, pieces, values, gnaw, ids) <= 258 * ids.len(),
    decreases ids.len(),
{
    if ids.len() > 0 {
        lemma_worth_sum_small(rooms, pieces, values, gnaw, ids.drop_last());
        lemma_worth_small(rooms, pieces, values, gnaw, ids.last());
    }
}

/// What piece `id` is worth on the board.
fn worth_of(rooms: &Rooms, pieces: &[Piece], values: &[u8; KIND_COUNT], gnaw: bool, id: u32) -> (r: u32)
    requires
        all_measurable(pieces@),
    ensures
        r == worth(*rooms, pieces@, values@, gnaw, id),
{
    match find_piece(pieces, id) {
        Some(i) => piece_value(rooms, &pieces[i], pieces, values, gnaw),
        None => 0,
    }
}

/// What `ids` are worth together.
fn worth_total(rooms: &Rooms, pieces: &[Piece], values: &[u8; KIND_COUNT], gnaw: bool, ids: &Vec<u32>) -> (r: u32)
    requires
        all_measurable(pieces@),
        ids@.len() < 0x40_0000,
    ensures
        r == worth_sum(*rooms, pieces@, values@, gnaw, ids@),
{
    let mut total: u32 = 0;
    let mut i: usize = 0;
    while i < ids.len()
        invariant
            all_measurable(pieces@),
            ids@.len() < 0x40_0000,
            i <= ids@.len(),
            total == worth_sum(*rooms, pieces@, values@, gnaw, ids@.take(i as int)),
        decreases ids@.len() - i,
    {
        proof {
            assert(ids@.take(i + 1).drop_last() =~= ids@.take(i as int));
            lemma_worth_sum_small(*rooms, pieces@, values@, gnaw, ids@.take(i + 1));
        }
        let w = worth_of(rooms, pieces, values, gnaw, ids[i]);
        assert(worth_sum(*rooms, pieces@, values@, gnaw, ids@.take(i + 1)) == total + w);
        total = total + w;
        i = i + 1;
    }
    proof {
        assert(ids@.take(ids@.len() as int) =~= ids@);
    }
    total
}

/// The ids on a class of `room`'s tiles are never more than the pieces.
proof fn lemma_ids_on_len(rooms: Rooms, pieces: Seq<Piece>, room: RoomId, class: Tile, n: int)
    requires
        0 <= n,
    ensures
        ids_on(rooms, pieces, room, class, n).len() <= n,
    decreases n,
{
    if n > 0 {
        lemma_ids_on_len(rooms, pieces, room, class, n - 1);
    }
}

/// What `room` composes against the standing proposal: the proposal's
/// worth is the budget, the room's stock at worth plus markup the
/// candidates, and the player's marks steer the choice.
pub fn compose_for(
    rooms: &Rooms,
    pieces: &[Piece],
    values: &[u8; KIND_COUNT],
    gnaw: bool,
    marks: &Vec<u32>,
    room: RoomId,
) -> (r: Vec<u32>)
    requires
        all_measurable(pieces@),
        pieces@.len() < 0x40_0000,
    ensures
        r@ == spec_compose_for(*rooms, pieces@, values@, gnaw, marks@, room),
        composed(
            worth_sum(*rooms, pieces@, values@, gnaw, spec_proposal(*rooms, pieces@, room)) as u32,
            offer_candidates(*rooms, pieces@, values@, gnaw, marks@, spec_stock_of(*rooms, pieces@, room)),
            r@,
        ),
        r@.len() <= pieces@.len(),
{
    let given = proposal(rooms, pieces, room);
    proof {
        lemma_ids_on_len(*rooms, pieces@, room, Tile::Offer, pieces@.len() as int);
        vstd::seq_lib::to_multiset_len(given@);
        vstd::seq_lib::to_multiset_len(ids_on(*rooms, pieces@, room, Tile::Offer, pieces@.len() as int));
    }
    let budget = worth_total(rooms, pieces, values, gnaw, &given);
    let stock = stock_of(rooms, pieces, room);
    let mut candidates: Vec<(u32, u32, bool)> = Vec::new();
    let mut i: usize = 0;
    while i < stock.len()
        invariant
            all_measurable(pieces@),
            i <= stock@.len(),
            candidates@.len() == i,
            forall|j: int|
                0 <= j < i ==> #[trigger] candidates@[j] == (
                    stock@[j],
                    (worth(*rooms, pieces@, values@, gnaw, stock@[j]) + STOCK_MARKUP) as u32,
                    marks@.contains(stock@[j]),
                ),
        decreases stock@.len() - i,
    {
        let id = stock[i];
        proof {
            lemma_worth_small(*rooms, pieces@, values@, gnaw, id);
        }
        let asking = worth_of(rooms, pieces, values, gnaw, id) + STOCK_MARKUP;
        let mut marked_on = false;
        let mut j: usize = 0;
        while j < marks.len()
            invariant
                j <= marks@.len(),
                marked_on == exists|k: int| 0 <= k < j && marks@[k] == id,
            decreases marks@.len() - j,
        {
            if marks[j] == id {
                marked_on = true;
            }
            j = j + 1;
        }
        candidates.push((id, asking, marked_on));
        i = i + 1;
    }
    proof {
        assert(candidates@ =~= offer_candidates(*rooms, pieces@, values@, gnaw, marks@, stock@));
    }
    let r = compose(budget, candidates.as_slice());
    proof {
        lemma_composed_len(budget, candidates@, r@);
    }
    r
}

/// The room's answer set down piece by piece on its own deck, in the
/// order composed: the board after, what the granted goods were asking,
/// and the ids actually granted. Goods the deck has no place for are not
/// granted at all, and are not priced.
pub open spec fn grant(
    rooms: Rooms,
    pieces: Seq<Piece>,
    values: Seq<u8>,
    gnaw: bool,
    room: RoomId,
    ids: Seq<u32>,
) -> (Seq<Piece>, int, Seq<u32>)
    decreases ids.len(),
{
    if ids.len() == 0 {
        (pieces, 0, Seq::empty())
    } else {
        let (p1, v1, g1) = grant(rooms, pieces, values, gnaw, room, ids.drop_last());
        let id = ids.last();
        match first_with_id(p1, id, 0) {
            None => (p1, v1, g1),
            Some(i) => match spec_deck_berth(rooms, p1, room, id, p1[i].kind) {
                Some(loc) => (
                    p1.update(i, Piece { loc, ..p1[i] }),
                    v1 + worth(rooms, p1, values, gnaw, id) + STOCK_MARKUP,
                    g1.push(id),
                ),
                None => (p1, v1, g1),
            },
        }
    }
}

/// Moving a piece onto a cell of some room's net keeps it measurable.
proof fn lemma_class_cell_small(rooms: Rooms, room: RoomId, class: Tile, c: (u8, u8))
    requires
        class_cell(rooms, room, class, c),
    ensures
        c.0 < 253 && c.1 < 253,
{
}


/// The stock entries of the first `n` pieces are never more than `n`.
proof fn lemma_stock_entries_len(rooms: Rooms, pieces: Seq<Piece>, room: RoomId, n: int)
    requires
        0 <= n,
    ensures
        stock_entries(rooms, pieces, room, n).len() <= n,
    decreases n,
{
    if n > 0 {
        lemma_stock_entries_len(rooms, pieces, room, n - 1);
    }
}

/// Set the room's answer down on its own deck, piece by piece in the
/// order composed; returns what the granted goods were asking and the
/// ids granted.
fn grant_all(
    rooms: &Rooms,
    pieces: &mut Vec<Piece>,
    values: &[u8; KIND_COUNT],
    gnaw: bool,
    room: RoomId,
    ids: &Vec<u32>,
) -> (r: (u32, Vec<u32>))
    requires
        all_measurable(old(pieces)@),
        ids@.len() < 0x40_0000,
    ensures
        ({
            let (p, v, g) = grant(*rooms, old(pieces)@, values@, gnaw, room, ids@);
            &&& final(pieces)@ == p
            &&& r.0 == v
            &&& r.1@ == g
        }),
        all_measurable(final(pieces)@),
        final(pieces)@.len() == old(pieces)@.len(),
{
    let ghost p0 = pieces@;
    let mut value: u32 = 0;
    let mut granted: Vec<u32> = Vec::new();
    let mut k: usize = 0;
    while k < ids.len()
        invariant
            k <= ids@.len(),
            ids@.len() < 0x40_0000,
            (pieces@, value as int, granted@) == grant(*rooms, p0, values@, gnaw, room, ids@.take(k as int)),
            all_measurable(pieces@),
            pieces@.len() == p0.len(),
            value <= 259 * k,
        decreases ids@.len() - k,
    {
        let id = ids[k];
        let ghost p1 = pieces@;
        let ghost v1 = value;
        let ghost g1 = granted@;
        proof {
            assert(ids@.take(k + 1).drop_last() =~= ids@.take(k as int));
            assert(ids@.take(k + 1).last() == id);
        }
        let board = pieces.as_slice();
        let found = find_piece(board, id);
        match found {
            Some(index) => {
                let kind = pieces[index].kind;
                proof {
                    assert(first_with_id(p1, id, 0) == Some(index as int));
                    lemma_worth_small(*rooms, p1, values@, gnaw, id);
                }
                let asking = worth_of(rooms, pieces.as_slice(), values, gnaw, id) + STOCK_MARKUP;
                let berth = deck_berth(rooms, pieces.as_slice(), room, id, kind);
                match berth {
                    Some(loc) => {
                        proof {
                            if let Loc::Hold { x, y, .. } = loc {
                                if any_berth(*rooms, p1, room, id, kind, Tile::Plain) {
                                    lemma_class_cell_small(*rooms, room, Tile::Plain, (x, y));
                                } else {
                                    lemma_class_cell_small(*rooms, room, Tile::Offer, (x, y));
                                }
                            }
                        }
                        let mut moved = pieces[index];
                        moved.loc = loc;
                        pieces.set(index, moved);
                        value = value + asking;
                        granted.push(id);
                        proof {
                            assert(pieces@ =~= p1.update(index as int, Piece { loc, ..p1[index as int] }));
                            assert forall|j: int| 0 <= j < pieces@.len() implies measurable(#[trigger] pieces@[j]) by {
                                if j != index as int {
                                    assert(pieces@[j] == p1[j]);
                                }
                            }
                        }
                    },
                    None => {},
                }
            },
            None => {},
        }
        k = k + 1;
    }
    proof {
        assert(ids@.take(ids@.len() as int) =~= ids@);
    }
    (value, granted)
}

/// The discovery ledger after the kinds of `ids` were demonstrated in
/// public: one bit per kind, set for each id found on the board.
pub open spec fn learn(mask: u32, pieces: Seq<Piece>, ids: Seq<u32>) -> u32
    decreases ids.len(),
{
    if ids.len() == 0 {
        mask
    } else {
        let m = learn(mask, pieces, ids.drop_last());
        match first_with_id(pieces, ids.last(), 0) {
            Some(i) => m | (1u32 << (pieces[i].kind.spec_index() as u32)),
            None => m,
        }
    }
}

/// Set the ledger bit of every kind among `ids`.
fn learn_all(mask: u32, pieces: &[Piece], ids: &Vec<u32>) -> (r: u32)
    ensures
        r == learn(mask, pieces@, ids@),
{
    let mut m = mask;
    let mut k: usize = 0;
    while k < ids.len()
        invariant
            k <= ids@.len(),
            m == learn(mask, pieces@, ids@.take(k as int)),
        decreases ids@.len() - k,
    {
        proof {
            assert(ids@.take(k + 1).drop_last() =~= ids@.take(k as int));
        }
        match find_piece(pieces, ids[k]) {
            Some(i) => {
                let bit = pieces[i].kind.index() as u32;
                m = m | (1u32 << bit);
            },
            None => {},
        }
        k = k + 1;
    }
    proof {
        assert(ids@.take(ids@.len() as int) =~= ids@);
    }
    m
}

/// The first of `cells[k..]`, not yet `used`, that takes piece `id` of
/// `kind` in `room`.
pub open spec fn free_stock_from(
    rooms: Rooms,
    pieces: Seq<Piece>,
    room: RoomId,
    id: u32,
    kind: Kind,
    cells: Seq<(u8, u8)>,
    used: Seq<(u8, u8)>,
    k: int,
) -> Option<(u8, u8)>
    decreases cells.len() - k,
{
    if k < 0 || k >= cells.len() {
        None
    } else if !used.contains(cells[k]) && sets_down(rooms, pieces, id, kind, room, cells[k]) {
        Some(cells[k])
    } else {
        free_stock_from(rooms, pieces, room, id, kind, cells, used, k + 1)
    }
}

/// What a proposal becomes once the deal is struck: each given piece, in
/// turn, takes the first unused stock cell that will hold it; the ones no
/// cell holds go into the back room. The board after, the cells used,
/// and the ids sent to the back room.
pub open spec fn restock(
    rooms: Rooms,
    pieces: Seq<Piece>,
    room: RoomId,
    cells: Seq<(u8, u8)>,
    ids: Seq<u32>,
) -> (Seq<Piece>, Seq<(u8, u8)>, Seq<u32>)
    decreases ids.len(),
{
    if ids.len() == 0 {
        (pieces, Seq::empty(), Seq::empty())
    } else {
        let (p1, u1, d1) = restock(rooms, pieces, room, cells, ids.drop_last());
        let id = ids.last();
        match first_with_id(p1, id, 0) {
            None => (p1, u1, d1),
            Some(i) => match free_stock_from(rooms, p1, room, id, p1[i].kind, cells, u1, 0) {
                Some(c) => (p1.update(i, Piece { loc: Loc::Hold { room, x: c.0, y: c.1 }, ..p1[i] }), u1.push(c), d1),
                None => (p1, u1, d1.push(id)),
            },
        }
    }
}

/// Whether `cells` holds `c`.
fn holds_cell(cells: &Vec<(u8, u8)>, c: (u8, u8)) -> (r: bool)
    ensures
        r == cells@.contains(c),
{
    let mut i: usize = 0;
    while i < cells.len()
        invariant
            i <= cells@.len(),
            forall|j: int| 0 <= j < i ==> cells@[j] != c,
        decreases cells@.len() - i,
    {
        let d = cells[i];
        if d.0 == c.0 && d.1 == c.1 {
            assert(cells@[i as int] == c);
            return true;
        }
        i = i + 1;
    }
    false
}

/// The first unused stock cell that takes piece `id` of `kind`.
fn free_stock(
    rooms: &Rooms,
    pieces: &[Piece],
    room: RoomId,
    id: u32,
    kind: Kind,
    cells: &Vec<(u8, u8)>,
    used: &Vec<(u8, u8)>,
) -> (r: Option<(u8, u8)>)
    ensures
        r == free_stock_from(*rooms, pieces@, room, id, kind, cells@, used@, 0),
{
    let mut k: usize = 0;
    while k < cells.len()
        invariant
            k <= cells@.len(),
            free_stock_from(*rooms, pieces@, room, id, kind, cells@, used@, 0) == free_stock_from(
                *rooms,
                pieces@,
                room,
                id,
                kind,
                cells@,
                used@,
                k as int,
            ),
        decreases cells@.len() - k,
    {
        let c = cells[k];
        if !holds_cell(used, c) && placement_legal(rooms, pieces, id, kind, room, c.0, c.1) {
            return Some(c);
        }
        k = k + 1;
    }
    None
}

/// Restock the room with what was proposed; returns the ids that went to
/// the back room.
fn restock_all(rooms: &Rooms, pieces: &mut Vec<Piece>, room: RoomId, cells: &Vec<(u8, u8)>, ids: &Vec<u32>) -> (r: Vec<
    u32,
>)
    ensures
        final(pieces)@ == restock(*rooms, old(pieces)@, room, cells@, ids@).0,
        r@ == restock(*rooms, old(pieces)@, room, cells@, ids@).2,
{
    let ghost p0 = pieces@;
    let mut used: Vec<(u8, u8)> = Vec::new();
    let mut doomed: Vec<u32> = Vec::new();
    let mut k: usize = 0;
    while k < ids.len()
        invariant
            k <= ids@.len(),
            (pieces@, used@, doomed@) == restock(*rooms, p0, room, cells@, ids@.take(k as int)),
        decreases ids@.len() - k,
    {
        let id = ids[k];
        let ghost p1 = pieces@;
        proof {
            assert(ids@.take(k + 1).drop_last() =~= ids@.take(k as int));
            assert(ids@.take(k + 1).last() == id);
        }
        let board = pieces.as_slice();
        let found = find_piece(board, id);
        match found {
            Some(index) => {
                let kind = pieces[index].kind;
                proof {
                    assert(first_with_id(p1, id, 0) == Some(index as int));
                }
                match free_stock(rooms, pieces.as_slice(), room, id, kind, cells, &used) {
                    Some(c) => {
                        let mut moved = pieces[index];
                        moved.loc = Loc::Hold { room, x: c.0, y: c.1 };
                        pieces.set(index, moved);
                        used.push(c);
                        proof {
                            assert(pieces@ =~= p1.update(
                                index as int,
                                Piece { loc: Loc::Hold { room, x: c.0, y: c.1 }, ..p1[index as int] },
                            ));
                        }
                    },
                    None => {
                        doomed.push(id);
                    },
                }
            },
            None => {},
        }
        k = k + 1;
    }
    proof {
        assert(ids@.take(ids@.len() as int) =~= ids@);
    }
    doomed
}

/// Whether some piece on the board carries `id`.
pub open spec fn carries(pieces: Seq<Piece>, id: u32) -> bool {
    exists|i: int| 0 <= i < pieces.len() && #[trigger] pieces[i].id == id
}

/// The test a piece passes to stay on the board: it went to no back room.
pub open spec fn not_doomed(doomed: Seq<u32>) -> spec_fn(Piece) -> bool {
    |p: Piece| !doomed.contains(p.id)
}

/// The handshake at a trading room: the standing offer commits and
/// ownership crosses. What the room composed lands on its own deck,
/// the player's to carry aboard; what the player proposed becomes the
/// room's stock, and whatever will not fit goes into the back room.
/// Every kind that crossed is learned in `familiar` for good; a gift to
/// the Hermitage (nothing granted back) counts toward its `karma`; the
/// player's marks are spent, and any crew member's carry of a piece that
/// left drops. Returns `None` when nothing was proposed — then nothing
/// changes — and otherwise what the proposal and the granted goods were
/// worth.
pub fn strike_deal(
    rooms: &Rooms,
    pieces: &mut Vec<Piece>,
    marks: &mut Vec<u32>,
    held: &mut Vec<Option<Held>>,
    values: &[u8; KIND_COUNT],
    station: PoiId,
    familiar: &mut u32,
    karma: &mut u32,
    room: RoomId,
) -> (r: Option<(u32, u32)>)
    requires
        all_measurable(old(pieces)@),
        old(pieces)@.len() < 0x40_0000,
        *old(karma) + old(pieces)@.len() <= u32::MAX,
    ensures
        ({
            let p0 = old(pieces)@;
            let gnaw = station == UMBRA;
            let given = spec_proposal(*rooms, p0, room);
            let taken = spec_compose_for(*rooms, p0, values@, gnaw, old(marks)@, room);
            let (p1, taken_value, granted) = grant(*rooms, p0, values@, gnaw, room, taken);
            let (p2, used, doomed) = restock(*rooms, p1, room, spec_tiles_of(*rooms, room, Tile::Stock), given);
            let p3 = p2.filter(not_doomed(doomed));
            if given.len() == 0 {
                &&& r is None
                &&& final(pieces)@ == p0
                &&& final(marks)@ == old(marks)@
                &&& final(held)@ == old(held)@
                &&& *final(familiar) == *old(familiar)
                &&& *final(karma) == *old(karma)
            } else {
                &&& r == Some((worth_sum(*rooms, p0, values@, gnaw, given) as u32, taken_value as u32))
                &&& final(pieces)@ == p3
                &&& final(marks)@.len() == 0
                &&& *final(familiar) == learn(*old(familiar), p1, given + granted)
                &&& *final(karma) == if station == HERMITAGE && granted.len() == 0 {
                    (*old(karma) + given.len()) as u32
                } else {
                    *old(karma)
                }
                &&& final(held)@.len() == old(held)@.len()
                &&& forall|k: int|
                    0 <= k < old(held)@.len() ==> #[trigger] final(held)@[k] == if old(held)@[k] matches Some(
                        h,
                    ) && !carries(p3, h.piece) {
                        None
                    } else {
                        old(held)@[k]
                    }
            }
        }),
{
    let gnaw = station == UMBRA;
    let given = proposal(rooms, pieces.as_slice(), room);
    proof {
        lemma_ids_on_len(*rooms, pieces@, room, Tile::Offer, pieces@.len() as int);
        vstd::seq_lib::to_multiset_len(given@);
        vstd::seq_lib::to_multiset_len(ids_on(*rooms, pieces@, room, Tile::Offer, pieces@.len() as int));
    }
    if given.len() == 0 {
        return None;
    }
    let taken = compose_for(rooms, pieces.as_slice(), values, gnaw, marks, room);
    let given_value = worth_total(rooms, pieces.as_slice(), values, gnaw, &given);
    let cells = tiles_of(rooms, room, Tile::Stock);
    let (taken_value, granted) = grant_all(rooms, pieces, values, gnaw, room, &taken);
    if station == HERMITAGE && granted.len() == 0 {
        *karma = *karma + given.len() as u32;
    }
    let mut crossed: Vec<u32> = given.clone();
    let mut g: usize = 0;
    while g < granted.len()
        invariant
            g <= granted@.len(),
            crossed@ == given@ + granted@.take(g as int),
        decreases granted@.len() - g,
    {
        crossed.push(granted[g]);
        proof {
            assert(granted@.take(g + 1) =~= granted@.take(g as int).push(granted@[g as int]));
        }
        g = g + 1;
    }
    proof {
        assert(granted@.take(granted@.len() as int) =~= granted@);
    }
    *familiar = learn_all(*familiar, pieces.as_slice(), &crossed);
    let doomed = restock_all(rooms, pieces, room, &cells, &given);
    let ghost p2 = pieces@;
    let ghost keep = not_doomed(doomed@);
    let mut kept: Vec<Piece> = Vec::new();
    let mut i: usize = 0;
    while i < pieces.len()
        invariant
            pieces@ == p2,
            keep == not_doomed(doomed@),
            i <= p2.len(),
            kept@ == p2.take(i as int).filter(keep),
        decreases p2.len() - i,
    {
        let piece = pieces[i];
        proof {
            reveal(Seq::filter);
            assert(p2.take(i + 1).drop_last() =~= p2.take(i as int));
            assert(p2.take(i + 1).last() == piece);
        }
        if !holds_id(&doomed, piece.id) {
            kept.push(piece);
        }
        i = i + 1;
    }
    proof {
        assert(p2.take(p2.len() as int) =~= p2);
    }
    *pieces = kept;
    let ghost h0 = held@;
    let mut k: usize = 0;
    while k < held.len()
        invariant
            held@.len() == h0.len(),
            k <= h0.len(),
            forall|j: int| k <= j < h0.len() ==> #[trigger] held@[j] == h0[j],
            forall|j: int|
                0 <= j < k ==> #[trigger] held@[j] == if h0[j] matches Some(h) && !carries(pieces@, h.piece) {
                    None
                } else {
                    h0[j]
                },
        decreases h0.len() - k,
    {
        if let Some(h) = held[k] {
            let mut there = false;
            let mut j: usize = 0;
            while j < pieces.len()
                invariant
                    j <= pieces@.len(),
                    there == exists|q: int| 0 <= q < j && pieces@[q].id == h.piece,
                decreases pieces@.len() - j,
            {
                if pieces[j].id == h.piece {
                    there = true;
                }
                j = j + 1;
            }
            if !there {
                held.set(k, None);
            }
        }
        k = k + 1;
    }
    marks.clear();
    Some((given_value, taken_value))
}

/// The ledger bit of kind `k`.
pub open spec fn kind_bit(k: int) -> u32 {
    1u32 << (k as u32)
}

/// Learning never forgets: every bit set before stays set.
pub proof fn lemma_learning_keeps(mask: u32, pieces: Seq<Piece>, ids: Seq<u32>, bit: u32)
    requires
        mask & bit == bit,
    ensures
        learn(mask, pieces, ids) & bit == bit,
    decreases ids.len(),
{
    if ids.len() > 0 {
        lemma_learning_keeps(mask, pieces, ids.drop_last(), bit);
        let m = learn(mask, pieces, ids.drop_last());
        if let Some(i) = first_with_id(pieces, ids.last(), 0) {
            let b = 1u32 << (pieces[i].kind.spec_index() as u32);
            assert(m & bit == bit ==> (m | b) & bit == bit) by (bit_vector);
        }
    }
}

/// **Every kind that crossed is learned for good**: the ledger after a
/// deal holds the bit of each crossing piece's kind, and that bit is
/// never cleared by any later learning.
pub proof fn lemma_crossing_teaches(mask: u32, pieces: Seq<Piece>, ids: Seq<u32>, j: int)
    requires
        0 <= j < ids.len(),
        first_with_id(pieces, ids[j], 0) is Some,
    ensures
        ({
            let b = kind_bit(pieces[first_with_id(pieces, ids[j], 0)->0].kind.spec_index());
            b != 0 && learn(mask, pieces, ids) & b == b
        }),
    decreases ids.len(),
{
    let i = first_with_id(pieces, ids[j], 0)->0;
    let k = pieces[i].kind.spec_index() as u32;
    assert(0 <= pieces[i].kind.spec_index() < 32);
    let b = 1u32 << k;
    assert(k < 32 ==> (1u32 << k) != 0) by (bit_vector);
    let m = learn(mask, pieces, ids.drop_last());
    if j == ids.len() - 1 {
        assert(ids.last() == ids[j]);
        assert((m | b) & b == b) by (bit_vector);
    } else {
        assert(ids.drop_last()[j] == ids[j]);
        lemma_crossing_teaches(mask, pieces, ids.drop_last(), j);
        if let Some(q) = first_with_id(pieces, ids.last(), 0) {
            let c = 1u32 << (pieces[q].kind.spec_index() as u32);
            assert(m & b == b ==> (m | c) & b == b) by (bit_vector);
        }
    }
}

/// The run's generator, spent only on cosmetic variant rolls.
#[verifier::external_type_specification]
#[verifier::external_body]
pub struct RunRng(fastrand::Rng);

/// Calls `fastrand::Rng::u8` with the range `..n`. The crate draws a
/// value in the range from the generator's hidden state (it panics only
/// on an empty range, which `0 < n` rules out), so all that is claimed
/// is that the roll is below `n`; which value comes is left unsaid.
#[verifier::external_body]
pub(crate) fn roll_below(rng: &mut fastrand::Rng, n: u8) -> (r: u8)
    requires
        0 < n,
    ensures
        r < n,
{
    rng.u8(..n)
}

/// A cosmetic variant roll: below [`VARIANTS`].
pub(crate) fn roll_variant(rng: &mut fastrand::Rng) -> (r: u8)
    ensures
        r < VARIANTS,
{
    roll_below(rng, VARIANTS)
}

/// The first free berth of class `class` in `room` for `kind`, as a
/// value: there is at most one.
pub open spec fn spec_free_berth(rooms: Rooms, pieces: Seq<Piece>, room: RoomId, kind: Kind, class: Tile) -> Option<Loc> {
    choose|r: Option<Loc>| first_berth(rooms, pieces, room, u32::MAX, kind, class, r)
}

/// Fresh pieces of `kind`, one per roll of `variants`, each set down on
/// the first free berth of class `class` in `room` with the next id — or
/// not at all, when the room has no such berth left. The board after,
/// and the next id.
pub open spec fn spawn_all(
    rooms: Rooms,
    pieces: Seq<Piece>,
    next: u32,
    room: RoomId,
    kind: Kind,
    class: Tile,
    variants: Seq<u8>,
) -> (Seq<Piece>, u32)
    decreases variants.len(),
{
    if variants.len() == 0 {
        (pieces, next)
    } else {
        let (p1, n1) = spawn_all(rooms, pieces, next, room, kind, class, variants.drop_last());
        match spec_free_berth(rooms, p1, room, kind, class) {
            Some(loc) => (
                p1.push(Piece { id: n1, kind, variant: variants.last(), gnawed: false, loc }),
                (n1 + 1) as u32,
            ),
            None => (p1, n1),
        }
    }
}

/// Whether every roll is a variant.
pub open spec fn rolls_ok(variants: Seq<u8>) -> bool {
    forall|k: int| 0 <= k < variants.len() ==> #[trigger] variants[k] < VARIANTS
}

/// A spawn run never spends more ids than it has rolls.
proof fn lemma_spawn_ids(
    rooms: Rooms,
    pieces: Seq<Piece>,
    next: u32,
    room: RoomId,
    kind: Kind,
    class: Tile,
    variants: Seq<u8>,
)
    requires
        next + variants.len() <= u32::MAX,
    ensures
        spawn_all(rooms, pieces, next, room, kind, class, variants).1 <= next + variants.len(),
        spawn_all(rooms, pieces, next, room, kind, class, variants).1 >= next,
    decreases variants.len(),
{
    if variants.len() > 0 {
        lemma_spawn_ids(rooms, pieces, next, room, kind, class, variants.drop_last());
    }
}

/// Set a fresh piece of `kind` down on the first free berth of class
/// `class` in `room`, with id `next_piece` (then counted on) and a
/// rolled variant. Returns whether there was room.
pub fn spawn_in(
    rooms: &Rooms,
    pieces: &mut Vec<Piece>,
    next_piece: &mut u32,
    rng: &mut fastrand::Rng,
    room: RoomId,
    kind: Kind,
    class: Tile,
) -> (r: bool)
    requires
        *old(next_piece) < u32::MAX,
    ensures
        exists|v: u8|
            v < VARIANTS && (final(pieces)@, *final(next_piece)) == spawn_all(
                *rooms,
                old(pieces)@,
                *old(next_piece),
                room,
                kind,
                class,
                seq![v],
            ),
        r == (spec_free_berth(*rooms, old(pieces)@, room, kind, class) is Some),
{
    let berth = free_berth_in(rooms, pieces.as_slice(), room, None, kind, class);
    proof {
        let other = spec_free_berth(*rooms, pieces@, room, kind, class);
        assert(first_berth(*rooms, pieces@, room, u32::MAX, kind, class, berth));
        lemma_first_berth_unique(*rooms, pieces@, room, u32::MAX, kind, class, berth, other);
        assert(seq![0u8].drop_last() =~= Seq::<u8>::empty());
    }
    match berth {
        Some(loc) => {
            let variant = roll_variant(rng);
            let ghost p0 = pieces@;
            let ghost n0 = *next_piece;
            pieces.push(Piece { id: *next_piece, kind, variant, gnawed: false, loc });
            *next_piece = *next_piece + 1;
            proof {
                assert(seq![variant].drop_last() =~= Seq::<u8>::empty());
                assert(seq![variant].last() == variant);
                assert(spawn_all(*rooms, p0, n0, room, kind, class, Seq::<u8>::empty()) == (p0, n0));
                assert(spawn_all(*rooms, p0, n0, room, kind, class, seq![variant]) == (pieces@, *next_piece));
                assert(p0 == old(pieces)@ && n0 == *old(next_piece));
                assert(variant < VARIANTS && (pieces@, *next_piece) == spawn_all(
                    *rooms,
                    old(pieces)@,
                    *old(next_piece),
                    room,
                    kind,
                    class,
                    seq![variant],
                ));
            }
            true
        },
        None => {
            proof {
                assert(seq![0u8].last() == 0u8);
                assert(spawn_all(*rooms, pieces@, *next_piece, room, kind, class, Seq::<u8>::empty()) == (
                    pieces@,
                    *next_piece,
                ));
                assert(0u8 < VARIANTS && (pieces@, *next_piece) == spawn_all(
                    *rooms,
                    old(pieces)@,
                    *old(next_piece),
                    room,
                    kind,
                    class,
                    seq![0u8],
                ));
            }
            false
        },
    }
}

/// What losing a wager makes of the stake: each staked piece found on
/// the board, in turn, becomes a casino chip with the next roll's
/// variant.
pub open spec fn transmute(pieces: Seq<Piece>, ids: Seq<u32>, variants: Seq<u8>) -> Seq<Piece>
    decreases ids.len(),
{
    if ids.len() == 0 || variants.len() < ids.len() {
        pieces
    } else {
        let p1 = transmute(pieces, ids.drop_last(), variants.take(ids.len() - 1));
        match first_with_id(p1, ids.last(), 0) {
            Some(i) => p1.update(i, Piece { kind: Kind::CasinoChip, variant: variants[ids.len() - 1], ..p1[i] }),
            None => p1,
        }
    }
}

/// The handshake in the parlor: the coin comes down once for whatever
/// is staked on the offer area. Win and a gilded idol per staked piece
/// lands on the house's floor beside the stake; lose and each staked
/// piece IS still there — transmuted into a casino chip. No piece is
/// ever destroyed. Returns `None` when nothing was staked (nothing
/// changes), otherwise whether the house paid out.
pub fn spin_wager(
    rooms: &Rooms,
    pieces: &mut Vec<Piece>,
    next_piece: &mut u32,
    rng: &mut fastrand::Rng,
    seed: u64,
    tick: u64,
    room: RoomId,
) -> (r: Option<bool>)
    requires
        *old(next_piece) + old(pieces)@.len() < u32::MAX,
    ensures
        ({
            let staked = spec_proposal(*rooms, old(pieces)@, room);
            let win = spec_splitmix(seed ^ SALT_CASINO, tick) % 2 == 0;
            if staked.len() == 0 {
                &&& r is None
                &&& final(pieces)@ == old(pieces)@
                &&& *final(next_piece) == *old(next_piece)
            } else {
                &&& r == Some(win)
                &&& exists|vs: Seq<u8>|
                    #![trigger rolls_ok(vs)]
                    vs.len() == staked.len() && rolls_ok(vs) && if win {
                        (final(pieces)@, *final(next_piece)) == spawn_all(
                            *rooms,
                            old(pieces)@,
                            *old(next_piece),
                            room,
                            Kind::GildedIdol,
                            Tile::Plain,
                            vs,
                        )
                    } else {
                        final(pieces)@ == transmute(old(pieces)@, staked, vs) && *final(next_piece)
                            == *old(next_piece)
                    }
            }
        }),
{
    let staked = proposal(rooms, pieces.as_slice(), room);
    if staked.len() == 0 {
        return None;
    }
    proof {
        lemma_ids_on_len(*rooms, pieces@, room, Tile::Offer, pieces@.len() as int);
        vstd::seq_lib::to_multiset_len(staked@);
        vstd::seq_lib::to_multiset_len(ids_on(*rooms, pieces@, room, Tile::Offer, pieces@.len() as int));
    }
    let win = Encounters::casino_coin(seed, tick);
    let ghost p0 = pieces@;
    let ghost n0 = *next_piece;
    let ghost mut vs: Seq<u8> = Seq::empty();
    let mut k: usize = 0;
    if win {
        while k < staked.len()
            invariant
                k <= staked@.len(),
                vs.len() == k,
                rolls_ok(vs),
                n0 + staked@.len() < u32::MAX,
                (pieces@, *next_piece) == spawn_all(*rooms, p0, n0, room, Kind::GildedIdol, Tile::Plain, vs),
            decreases staked@.len() - k,
        {
            proof {
                lemma_spawn_ids(*rooms, p0, n0, room, Kind::GildedIdol, Tile::Plain, vs);
            }
            let ghost p1 = pieces@;
            let ghost n1 = *next_piece;
            spawn_in(rooms, pieces, next_piece, rng, room, Kind::GildedIdol, Tile::Plain);
            proof {
                let v = choose|v: u8|
                    v < VARIANTS && (pieces@, *next_piece) == spawn_all(
                        *rooms,
                        p1,
                        n1,
                        room,
                        Kind::GildedIdol,
                        Tile::Plain,
                        seq![v],
                    );
                assert(seq![v].drop_last() =~= Seq::<u8>::empty());
                let nvs = vs.push(v);
                assert(nvs.drop_last() =~= vs);
                assert(nvs.last() == v);
                assert(spawn_all(*rooms, p1, n1, room, Kind::GildedIdol, Tile::Plain, Seq::<u8>::empty()) == (p1, n1));
                assert(spawn_all(*rooms, p0, n0, room, Kind::GildedIdol, Tile::Plain, nvs) == spawn_all(
                    *rooms,
                    p1,
                    n1,
                    room,
                    Kind::GildedIdol,
                    Tile::Plain,
                    seq![v],
                ));
                assert(rolls_ok(nvs)) by {
                    assert forall|q: int| 0 <= q < nvs.len() implies #[trigger] nvs[q] < VARIANTS by {
                        if q < vs.len() {
                            assert(nvs[q] == vs[q]);
                        }
                    }
                }
                vs = nvs;
            }
            k = k + 1;
        }
    } else {
        while k < staked.len()
            invariant
                k <= staked@.len(),
                vs.len() == k,
                rolls_ok(vs),
                *next_piece == n0,
                pieces@ == transmute(p0, staked@.take(k as int), vs),
            decreases staked@.len() - k,
        {
            let id = staked[k];
            let ghost p1 = pieces@;
            let v = roll_variant(rng);
            let found = find_piece(pieces.as_slice(), id);
            match found {
                Some(i) => {
                    let mut chip = pieces[i];
                    chip.kind = Kind::CasinoChip;
                    chip.variant = v;
                    pieces.set(i, chip);
                },
                None => {},
            }
            proof {
                let nvs = vs.push(v);
                let ids = staked@.take(k + 1);
                assert(ids.drop_last() =~= staked@.take(k as int));
                assert(ids.last() == id);
                assert(nvs.take(k as int) =~= vs);
                assert(nvs[k as int] == v);
                if let Some(i) = found {
                    assert(first_with_id(p1, id, 0) == Some(i as int));
                    assert(pieces@ =~= p1.update(
                        i as int,
                        Piece { kind: Kind::CasinoChip, variant: v, ..p1[i as int] },
                    ));
                }
                assert(rolls_ok(nvs)) by {
                    assert forall|q: int| 0 <= q < nvs.len() implies #[trigger] nvs[q] < VARIANTS by {
                        if q < vs.len() {
                            assert(nvs[q] == vs[q]);
                        }
                    }
                }
                vs = nvs;
            }
            k = k + 1;
        }
        proof {
            assert(staked@.take(staked@.len() as int) =~= staked@);
        }
    }
    proof {
        assert(vs.len() == staked@.len() && rolls_ok(vs));
    }
    Some(win)
}

/// The ship's state after the pump bay's inexplicable fuel: a
/// twentieth of what remains of the leg, skipped.
pub open spec fn topped_up(state: ShipState) -> ShipState {
    match state {
        ShipState::Traveling { from, to, progress, leg_ticks } => ShipState::Traveling {
            from,
            to,
            progress: (progress + (leg_ticks - progress) / 20) as u64,
            leg_ticks,
        },
        ShipState::Docked(at) => ShipState::Docked(at),
    }
}

/// The handshake in the pump bay: top up, once. Refused (nothing
/// changes) unless a gas station is alongside and unused; otherwise it is
/// spent, and a traveling ship skips a twentieth of what remains of its
/// leg. Returns whether the tanks were topped up.
pub fn gas_top_up(encounters: &mut Encounters, state: &mut ShipState) -> (r: bool)
    requires
        *old(state) matches ShipState::Traveling { progress, leg_ticks, .. } ==> progress <= leg_ticks,
    ensures
        r == (old(encounters).current matches Some(e) && e.kind == EncounterKind::GasStation && !e.used),
        !r ==> *final(encounters) == *old(encounters) && *final(state) == *old(state),
        r ==> final(encounters).current == Some(Encounter { used: true, ..old(encounters).current->0 })
            && *final(state) == topped_up(*old(state)),
{
    let mut enc = match encounters.current {
        Some(e) => e,
        None => return false,
    };
    if enc.kind != EncounterKind::GasStation || enc.used {
        return false;
    }
    enc.used = true;
    encounters.current = Some(enc);
    if let ShipState::Traveling { from, to, progress, leg_ticks } = *state {
        *state = ShipState::Traveling { from, to, progress: progress + (leg_ticks - progress) / 20, leg_ticks };
    }
    true
}

} // verus!
