//! The whole save document: what it holds, the text it is written as,
//! and the checks a read applies once every line is in.
//!
//! ```text
//! STV16
//! seed <n>        tick <n>        rng <16 hex digits>
//! warp <0|1>      paused <0|1>    deliveries <n>      karma <n>
//! familiar <hex mask per station> visits <count per station>
//! ship docked <at> <selected|-> <stoke>
//! ship travel <from> <to> <progress> <leg ticks> <selected|-> <stoke>
//! legs <n>
//! omen <jump|-> <idle|omen|wake> <elapsed> <light bits> <swell bits>
//! enc …  drone …  parade <tick|-> <visit|->  rat …
//! rooms <count>, then one `room` line per edge in attach order
//! marks <count> <id>…
//! one `piece` line per piece, then next_piece <n>
//! ```
//!
//! (Each entry above is a line of its own.)

use vstd::prelude::*;
use crate::sim::cargo::Piece;
use crate::sim::encounter::{Drone, Encounter};
use crate::sim::event::Phase;
use crate::sim::map::{PoiId, ShipState};
use crate::sim::rats::Rat;
use crate::sim::room::Rooms;
use crate::sim::save::lines::{
    lemma_kv_one, lemma_marks_one, lemma_state_lines_one,
    Key, RoomEdge, hex_kv_text, id_nats, kv_text, list_text, marks_text, omen_text, parade_text, room_text,
    ship_text, write_hex_kv, write_kv, write_list, write_marks, write_omen, write_parade, write_room,
    write_ship,
};
use crate::text::{concat, lemma_concat_append, lemma_concat_push, lemma_lines_concat, lines, one_line};
use crate::sim::save::{
    lemma_piece_one, lemma_records_one,
    drone_text, enc_text, flag_num, piece_text, rat_text, write_drone, write_enc, write_piece, write_rat,
};

verus! {

/// Everything a save keeps: what cannot be recomputed.
#[derive(Clone, Debug, PartialEq, Eq)]
pub struct SaveDoc {
    pub seed: u64,
    pub tick: u64,
    /// The run generator's state.
    pub rng: u64,
    pub warp: bool,
    pub paused: bool,
    pub deliveries: u32,
    pub karma: u32,
    /// One discovery mask per station, in map order.
    pub familiar: Vec<u32>,
    /// One visit count per station, in map order.
    pub visits: Vec<u32>,
    pub ship: ShipState,
    pub selected: Option<PoiId>,
    pub stoke: u64,
    pub legs: u64,
    pub jump_at: Option<u64>,
    pub phase: Phase,
    /// The eased console light, as its bit pattern.
    pub light: u32,
    /// The eased omen swell, as its bit pattern.
    pub swell: u32,
    pub encounter: Option<Encounter>,
    pub drone: Option<Drone>,
    pub parade_at: Option<u64>,
    pub comet_visit: Option<u64>,
    pub rat: Option<Rat>,
    /// The room graph as its edge list, in attach order.
    pub rooms: Vec<RoomEdge>,
    pub marks: Vec<u32>,
    pub pieces: Vec<Piece>,
    pub next_piece: u32,
}

/// The header every save this build writes opens with: `STV16`.
pub open spec fn magic() -> Seq<u8> {
    seq![83u8, 84u8, 86u8, 49u8, 54u8]
}

/// The `room` lines of an edge list.
pub open spec fn rooms_text(es: Seq<RoomEdge>) -> Seq<u8>
    decreases es.len(),
{
    if es.len() == 0 {
        Seq::empty()
    } else {
        room_text(es[0]) + rooms_text(es.drop_first())
    }
}

/// The `piece` lines of a board.
pub open spec fn pieces_text(ps: Seq<Piece>) -> Seq<u8>
    decreases ps.len(),
{
    if ps.len() == 0 {
        Seq::empty()
    } else {
        piece_text(ps[0]) + pieces_text(ps.drop_first())
    }
}

/// The lines before the room graph.
pub open spec fn head_text(d: SaveDoc) -> Seq<u8> {
    magic() + seq![10u8] + kv_text(Key::Seed, d.seed as nat) + kv_text(Key::Tick, d.tick as nat) + hex_kv_text(
        Key::Rng,
        d.rng as nat,
        16,
    ) + kv_text(Key::Warp, flag_num(d.warp)) + kv_text(Key::Paused, flag_num(d.paused)) + kv_text(
        Key::Deliveries,
        d.deliveries as nat,
    ) + kv_text(Key::Karma, d.karma as nat) + list_text(Key::Familiar, id_nats(d.familiar@), true, 4) + list_text(
        Key::Visits,
        id_nats(d.visits@),
        false,
        0,
    ) + ship_text(d.ship, d.selected, d.stoke) + kv_text(Key::Legs, d.legs as nat) + omen_text(
        d.jump_at,
        d.phase,
        d.light,
        d.swell,
    ) + enc_text(d.encounter) + drone_text(d.drone) + parade_text(d.parade_at, d.comet_visit) + rat_text(d.rat)
}

/// The whole document a save is written as.
pub open spec fn save_text(d: SaveDoc) -> Seq<u8> {
    head_text(d) + kv_text(Key::Rooms, d.rooms@.len()) + rooms_text(d.rooms@) + marks_text(d.marks@) + pieces_text(
        d.pieces@,
    ) + kv_text(Key::NextPiece, d.next_piece as nat)
}

/// Write a document: the header, one line per field, the room graph as
/// its edge list, the marks, one line per piece, and the next id.
pub fn write_save(d: &SaveDoc) -> (r: Vec<u8>)
    ensures
        r@ == save_text(*d),
{
    let mut out: Vec<u8> = Vec::new();
    write_head(&mut out, d);
    assert(out@ == head_text(*d));
    write_kv(&mut out, Key::Rooms, d.rooms.len() as u64);
    write_rooms(&mut out, d.rooms.as_slice());
    write_marks(&mut out, d.marks.as_slice());
    write_pieces(&mut out, d.pieces.as_slice());
    write_kv(&mut out, Key::NextPiece, d.next_piece as u64);
    out
}

/// Append the lines before the room graph.
fn write_head(out: &mut Vec<u8>, d: &SaveDoc)
    requires
        old(out)@.len() == 0,
    ensures
        final(out)@ == head_text(*d),
{
    out.push(83);
    out.push(84);
    out.push(86);
    out.push(49);
    out.push(54);
    out.push(10);
    assert(out@ =~= magic() + seq![10u8]);
    write_kv(out, Key::Seed, d.seed);
    write_kv(out, Key::Tick, d.tick);
    write_hex_kv(out, Key::Rng, d.rng, 16);
    write_kv(out, Key::Warp, if d.warp { 1 } else { 0 });
    write_kv(out, Key::Paused, if d.paused { 1 } else { 0 });
    write_kv(out, Key::Deliveries, d.deliveries as u64);
    write_kv(out, Key::Karma, d.karma as u64);
    let familiar = widen_all(&d.familiar);
    write_list(out, Key::Familiar, familiar.as_slice(), true, 4);
    let visits = widen_all(&d.visits);
    write_list(out, Key::Visits, visits.as_slice(), false, 0);
    write_ship(out, d.ship, d.selected, d.stoke);
    write_kv(out, Key::Legs, d.legs);
    write_omen(out, d.jump_at, d.phase, d.light, d.swell);
    write_enc(out, d.encounter);
    write_drone(out, d.drone);
    write_parade(out, d.parade_at, d.comet_visit);
    write_rat(out, d.rat);
}

/// Append the `room` lines of an edge list.
fn write_rooms(out: &mut Vec<u8>, rooms: &[RoomEdge])
    ensures
        final(out)@ == old(out)@ + rooms_text(rooms@),
{
    let ghost start = out@;
    let mut i: usize = 0;
    assert(rooms@.skip(0) =~= rooms@);
    while i < rooms.len()
        invariant
            i <= rooms@.len(),
            start + rooms_text(rooms@) == out@ + rooms_text(rooms@.skip(i as int)),
        decreases rooms@.len() - i,
    {
        proof {
            let rest = rooms@.skip(i as int);
            assert(rest.drop_first() =~= rooms@.skip(i + 1));
            assert(rest[0] == rooms@[i as int]);
        }
        let ghost before = out@;
        write_room(out, rooms[i]);
        proof {
            assert(before + (room_text(rooms@[i as int]) + rooms_text(rooms@.skip(i + 1))) =~= out@ + rooms_text(
                rooms@.skip(i + 1),
            ));
        }
        i = i + 1;
    }
    proof {
        assert(rooms@.skip(rooms@.len() as int) =~= Seq::<RoomEdge>::empty());
        assert(out@ + Seq::<u8>::empty() =~= out@);
    }
}

/// Append the `piece` lines of a board.
fn write_pieces(out: &mut Vec<u8>, pieces: &[Piece])
    ensures
        final(out)@ == old(out)@ + pieces_text(pieces@),
{
    let ghost start = out@;
    let mut i: usize = 0;
    assert(pieces@.skip(0) =~= pieces@);
    while i < pieces.len()
        invariant
            i <= pieces@.len(),
            start + pieces_text(pieces@) == out@ + pieces_text(pieces@.skip(i as int)),
        decreases pieces@.len() - i,
    {
        proof {
            let rest = pieces@.skip(i as int);
            assert(rest.drop_first() =~= pieces@.skip(i + 1));
            assert(rest[0] == pieces@[i as int]);
        }
        let ghost before = out@;
        write_piece(out, &pieces[i]);
        proof {
            assert(before + (piece_text(pieces@[i as int]) + pieces_text(pieces@.skip(i + 1))) =~= out@ + pieces_text(
                pieces@.skip(i + 1),
            ));
        }
        i = i + 1;
    }
    proof {
        assert(pieces@.skip(pieces@.len() as int) =~= Seq::<Piece>::empty());
        assert(out@ + Seq::<u8>::empty() =~= out@);
    }
}

/// Each entry of `v`, widened.
fn widen_all(v: &Vec<u32>) -> (r: Vec<u64>)
    ensures
        crate::sim::save::lines::nats(r@) == id_nats(v@),
{
    let mut r: Vec<u64> = Vec::new();
    let mut i: usize = 0;
    while i < v.len()
        invariant
            i <= v@.len(),
            r@.len() == i,
            forall|j: int| 0 <= j < i ==> #[trigger] r@[j] == v@[j] as u64,
        decreases v@.len() - i,
    {
        r.push(v[i] as u64);
        i = i + 1;
    }
    assert(crate::sim::save::lines::nats(r@) =~= id_nats(v@));
    r
}

/// The edge list of a room graph, in attach order: each room's id, its
/// kind, and the mate it hangs from.
pub fn edges_of(rooms: &Rooms) -> (r: Vec<RoomEdge>)
    requires
        rooms.wf(),
    ensures
        r@.len() == rooms.attach_order().len(),
        forall|i: int|
            0 <= i < r@.len() ==> {
                let id = rooms.attach_order()[i];
                &&& (#[trigger] r@[i]).id == id
                &&& rooms.room_at(id as int) matches Some(room) && r@[i].kind == room.kind && r@[i].anchor == room.anchor
            },
{
    let order = rooms.order();
    let mut r: Vec<RoomEdge> = Vec::new();
    let mut i: usize = 0;
    while i < order.len()
        invariant
            rooms.wf(),
            order@ == rooms.attach_order(),
            i <= order@.len(),
            r@.len() == i,
            forall|j: int|
                0 <= j < i ==> {
                    let id = rooms.attach_order()[j];
                    &&& (#[trigger] r@[j]).id == id
                    &&& rooms.room_at(id as int) matches Some(room) && r@[j].kind == room.kind && r@[j].anchor
                        == room.anchor
                },
        decreases order@.len() - i,
    {
        let id = order[i];
        proof {
            rooms.lemma_order_present(i as int);
        }
        match rooms.get(id) {
            Some(room) => {
                r.push(RoomEdge { id, kind: room.kind, anchor: room.anchor });
            },
            None => {
                assert(false);
            },
        }
        i = i + 1;
    }
    r
}

/// The lines before the room graph, one text per line.
pub open spec fn head_texts(d: SaveDoc) -> Seq<Seq<u8>> {
    Seq::empty()
        .push(magic() + seq![10u8])
        .push(kv_text(Key::Seed, d.seed as nat))
        .push(kv_text(Key::Tick, d.tick as nat))
        .push(hex_kv_text(Key::Rng, d.rng as nat, 16))
        .push(kv_text(Key::Warp, flag_num(d.warp)))
        .push(kv_text(Key::Paused, flag_num(d.paused)))
        .push(kv_text(Key::Deliveries, d.deliveries as nat))
        .push(kv_text(Key::Karma, d.karma as nat))
        .push(list_text(Key::Familiar, id_nats(d.familiar@), true, 4))
        .push(list_text(Key::Visits, id_nats(d.visits@), false, 0))
        .push(ship_text(d.ship, d.selected, d.stoke))
        .push(kv_text(Key::Legs, d.legs as nat))
        .push(omen_text(d.jump_at, d.phase, d.light, d.swell))
        .push(enc_text(d.encounter))
        .push(drone_text(d.drone))
        .push(parade_text(d.parade_at, d.comet_visit))
        .push(rat_text(d.rat))
}

/// Every line of the document, one text per line.
pub closed spec fn doc_texts(d: SaveDoc) -> Seq<Seq<u8>> {
    head_texts(d) + seq![kv_text(Key::Rooms, d.rooms@.len())] + d.rooms@.map_values(|e: RoomEdge| room_text(e))
        + seq![marks_text(d.marks@)] + d.pieces@.map_values(|p: Piece| piece_text(p)) + seq![
        kv_text(Key::NextPiece, d.next_piece as nat),
    ]
}

/// The lines of a document, as they read back: each text without its
/// line feed.
pub open spec fn doc_lines(d: SaveDoc) -> Seq<Seq<u8>> {
    doc_texts(d).map_values(|t: Seq<u8>| t.drop_last())
}

/// The head is its lines one after another.
proof fn lemma_head_concat(d: SaveDoc)
    ensures
        head_text(d) == concat(head_texts(d)),
{
    let s0 = Seq::<Seq<u8>>::empty();
    let s1 = s0.push(magic() + seq![10u8]);
    let s2 = s1.push(kv_text(Key::Seed, d.seed as nat));
    let s3 = s2.push(kv_text(Key::Tick, d.tick as nat));
    let s4 = s3.push(hex_kv_text(Key::Rng, d.rng as nat, 16));
    let s5 = s4.push(kv_text(Key::Warp, flag_num(d.warp)));
    let s6 = s5.push(kv_text(Key::Paused, flag_num(d.paused)));
    let s7 = s6.push(kv_text(Key::Deliveries, d.deliveries as nat));
    let s8 = s7.push(kv_text(Key::Karma, d.karma as nat));
    let s9 = s8.push(list_text(Key::Familiar, id_nats(d.familiar@), true, 4));
    let s10 = s9.push(list_text(Key::Visits, id_nats(d.visits@), false, 0));
    let s11 = s10.push(ship_text(d.ship, d.selected, d.stoke));
    let s12 = s11.push(kv_text(Key::Legs, d.legs as nat));
    let s13 = s12.push(omen_text(d.jump_at, d.phase, d.light, d.swell));
    let s14 = s13.push(enc_text(d.encounter));
    let s15 = s14.push(drone_text(d.drone));
    let s16 = s15.push(parade_text(d.parade_at, d.comet_visit));
    let s17 = s16.push(rat_text(d.rat));
    lemma_concat_push(s0, magic() + seq![10u8]);
    lemma_concat_push(s1, kv_text(Key::Seed, d.seed as nat));
    lemma_concat_push(s2, kv_text(Key::Tick, d.tick as nat));
    lemma_concat_push(s3, hex_kv_text(Key::Rng, d.rng as nat, 16));
    lemma_concat_push(s4, kv_text(Key::Warp, flag_num(d.warp)));
    lemma_concat_push(s5, kv_text(Key::Paused, flag_num(d.paused)));
    lemma_concat_push(s6, kv_text(Key::Deliveries, d.deliveries as nat));
    lemma_concat_push(s7, kv_text(Key::Karma, d.karma as nat));
    lemma_concat_push(s8, list_text(Key::Familiar, id_nats(d.familiar@), true, 4));
    lemma_concat_push(s9, list_text(Key::Visits, id_nats(d.visits@), false, 0));
    lemma_concat_push(s10, ship_text(d.ship, d.selected, d.stoke));
    lemma_concat_push(s11, kv_text(Key::Legs, d.legs as nat));
    lemma_concat_push(s12, omen_text(d.jump_at, d.phase, d.light, d.swell));
    lemma_concat_push(s13, enc_text(d.encounter));
    lemma_concat_push(s14, drone_text(d.drone));
    lemma_concat_push(s15, parade_text(d.parade_at, d.comet_visit));
    lemma_concat_push(s16, rat_text(d.rat));
    assert(concat(s0) == Seq::<u8>::empty());
    assert(Seq::<u8>::empty() + (magic() + seq![10u8]) =~= magic() + seq![10u8]);
}

/// Room lines one after another.
proof fn lemma_rooms_concat(es: Seq<RoomEdge>)
    ensures
        rooms_text(es) == concat(es.map_values(|e: RoomEdge| room_text(e))),
    decreases es.len(),
{
    let ts = es.map_values(|e: RoomEdge| room_text(e));
    if es.len() > 0 {
        lemma_rooms_concat(es.drop_first());
        assert(ts.drop_first() =~= es.drop_first().map_values(|e: RoomEdge| room_text(e)));
    } else {
        assert(ts =~= Seq::<Seq<u8>>::empty());
    }
}

/// Piece lines one after another.
proof fn lemma_pieces_concat(ps: Seq<Piece>)
    ensures
        pieces_text(ps) == concat(ps.map_values(|p: Piece| piece_text(p))),
    decreases ps.len(),
{
    let ts = ps.map_values(|p: Piece| piece_text(p));
    if ps.len() > 0 {
        lemma_pieces_concat(ps.drop_first());
        assert(ts.drop_first() =~= ps.drop_first().map_values(|p: Piece| piece_text(p)));
    } else {
        assert(ts =~= Seq::<Seq<u8>>::empty());
    }
}

/// **A written document reads back line by line as its fields' lines**:
/// the header, one line per field, one per room edge, the marks, one
/// per piece, and the next id.
pub proof fn lemma_save_lines(d: SaveDoc)
    ensures
        lines(save_text(d)) == doc_lines(d),
{
    lemma_head_concat(d);
    lemma_rooms_concat(d.rooms@);
    lemma_pieces_concat(d.pieces@);
    let rs = d.rooms@.map_values(|e: RoomEdge| room_text(e));
    let ps = d.pieces@.map_values(|p: Piece| piece_text(p));
    let a = head_texts(d);
    let b = seq![kv_text(Key::Rooms, d.rooms@.len())];
    let m = seq![marks_text(d.marks@)];
    let n = seq![kv_text(Key::NextPiece, d.next_piece as nat)];
    lemma_concat_append(a, b);
    lemma_concat_append(a + b, rs);
    lemma_concat_append(a + b + rs, m);
    lemma_concat_append(a + b + rs + m, ps);
    lemma_concat_append(a + b + rs + m + ps, n);
    lemma_concat_one(kv_text(Key::Rooms, d.rooms@.len()));
    lemma_concat_one(marks_text(d.marks@));
    lemma_concat_one(kv_text(Key::NextPiece, d.next_piece as nat));
    assert(save_text(d) == concat(doc_texts(d)));
    lemma_doc_lines(d);
}

/// The lines of the document's texts one after another.
proof fn lemma_doc_lines(d: SaveDoc)
    ensures
        lines(concat(doc_texts(d))) == doc_lines(d),
{
    let ts = doc_texts(d);
    assert forall|j: int| 0 <= j < ts.len() implies one_line(#[trigger] ts[j]) by {
        lemma_texts_one(d, j);
    }
    lemma_lines_concat(ts);
}

/// One text alone.
proof fn lemma_concat_one(t: Seq<u8>)
    ensures
        concat(seq![t]) == t,
{
    let one = seq![t];
    assert(one.drop_first() =~= Seq::<Seq<u8>>::empty());
    assert(one[0] == t);
    assert(concat(Seq::<Seq<u8>>::empty()) == Seq::<u8>::empty());
    assert(concat(one) == one[0] + concat(one.drop_first()));
    assert(t + Seq::<u8>::empty() =~= t);
}

/// Line `j` of a document is one whole line.
pub proof fn lemma_texts_one(d: SaveDoc, j: int)
    requires
        0 <= j < doc_texts(d).len(),
    ensures
        one_line(doc_texts(d)[j]),
{
    let ts = doc_texts(d);
    let h = head_texts(d);
    let nr = d.rooms@.len() as int;
    let np = d.pieces@.len() as int;
    if j < 17 {
        assert(ts[j] == h[j]);
        assert(one_line(magic() + seq![10u8])) by {
            assert((magic() + seq![10u8]).drop_last() =~= magic());
        }
        lemma_kv_one(Key::Seed, d.seed as nat, 0, Seq::empty(), false);
        lemma_kv_one(Key::Tick, d.tick as nat, 0, Seq::empty(), false);
        lemma_kv_one(Key::Rng, d.rng as nat, 16, Seq::empty(), false);
        lemma_kv_one(Key::Warp, flag_num(d.warp), 0, Seq::empty(), false);
        lemma_kv_one(Key::Paused, flag_num(d.paused), 0, Seq::empty(), false);
        lemma_kv_one(Key::Deliveries, d.deliveries as nat, 0, Seq::empty(), false);
        lemma_kv_one(Key::Karma, d.karma as nat, 0, Seq::empty(), false);
        lemma_kv_one(Key::Familiar, 0, 4, id_nats(d.familiar@), true);
        lemma_kv_one(Key::Visits, 0, 0, id_nats(d.visits@), false);
        lemma_kv_one(Key::Legs, d.legs as nat, 0, Seq::empty(), false);
        lemma_state_lines_one(
            d.ship,
            d.selected,
            d.stoke,
            d.jump_at,
            d.phase,
            d.light,
            d.swell,
            d.parade_at,
            d.comet_visit,
            RoomEdge { id: 0, kind: crate::sim::room::RoomKind::Cabin, anchor: None },
        );
        lemma_records_one(d.encounter, d.drone, d.rat);
    } else if j == 17 {
        lemma_kv_one(Key::Rooms, d.rooms@.len(), 0, Seq::empty(), false);
    } else if j < 18 + nr {
        assert(ts[j] == room_text(d.rooms@[j - 18]));
        lemma_state_lines_one(
            d.ship,
            d.selected,
            d.stoke,
            d.jump_at,
            d.phase,
            d.light,
            d.swell,
            d.parade_at,
            d.comet_visit,
            d.rooms@[j - 18],
        );
    } else if j == 18 + nr {
        lemma_marks_one(d.marks@);
    } else if j < 19 + nr + np {
        assert(ts[j] == piece_text(d.pieces@[j - 19 - nr]));
        lemma_piece_one(d.pieces@[j - 19 - nr]);
    } else {
        lemma_kv_one(Key::NextPiece, d.next_piece as nat, 0, Seq::empty(), false);
    }
}

/// Which text stands at each line of a document: the header, the head
/// fields in order, the room count, one line per edge, the marks, one
/// line per piece, and the next id.
pub proof fn lemma_doc_texts(d: SaveDoc)
    ensures
        doc_texts(d).len() == 20 + d.rooms@.len() + d.pieces@.len(),
        doc_texts(d)[0] == magic() + seq![10u8],
        doc_texts(d)[1] == kv_text(Key::Seed, d.seed as nat),
        doc_texts(d)[2] == kv_text(Key::Tick, d.tick as nat),
        doc_texts(d)[3] == hex_kv_text(Key::Rng, d.rng as nat, 16),
        doc_texts(d)[4] == kv_text(Key::Warp, flag_num(d.warp)),
        doc_texts(d)[5] == kv_text(Key::Paused, flag_num(d.paused)),
        doc_texts(d)[6] == kv_text(Key::Deliveries, d.deliveries as nat),
        doc_texts(d)[7] == kv_text(Key::Karma, d.karma as nat),
        doc_texts(d)[8] == list_text(Key::Familiar, id_nats(d.familiar@), true, 4),
        doc_texts(d)[9] == list_text(Key::Visits, id_nats(d.visits@), false, 0),
        doc_texts(d)[10] == ship_text(d.ship, d.selected, d.stoke),
        doc_texts(d)[11] == kv_text(Key::Legs, d.legs as nat),
        doc_texts(d)[12] == omen_text(d.jump_at, d.phase, d.light, d.swell),
        doc_texts(d)[13] == enc_text(d.encounter),
        doc_texts(d)[14] == drone_text(d.drone),
        doc_texts(d)[15] == parade_text(d.parade_at, d.comet_visit),
        doc_texts(d)[16] == rat_text(d.rat),
        doc_texts(d)[17] == kv_text(Key::Rooms, d.rooms@.len()),
        forall|j: int| 0 <= j < d.rooms@.len() ==> #[trigger] doc_texts(d)[18 + j] == room_text(d.rooms@[j]),
        doc_texts(d)[18 + d.rooms@.len() as int] == marks_text(d.marks@),
        forall|j: int|
            0 <= j < d.pieces@.len() ==> #[trigger] doc_texts(d)[19 + d.rooms@.len() as int + j] == piece_text(d.pieces@[j]),
        doc_texts(d)[19 + d.rooms@.len() as int + d.pieces@.len() as int] == kv_text(Key::NextPiece, d.next_piece as nat),
{
    let ts = doc_texts(d);
    let c = d.rooms@.len() as int;
    assert forall|j: int| 0 <= j < d.rooms@.len() implies #[trigger] ts[18 + j] == room_text(d.rooms@[j]) by {
        assert(ts[18 + j] == d.rooms@.map_values(|e: RoomEdge| room_text(e))[j]);
    }
    assert forall|j: int| 0 <= j < d.pieces@.len() implies #[trigger] ts[19 + c + j] == piece_text(d.pieces@[j]) by {
        assert(ts[19 + c + j] == d.pieces@.map_values(|p: Piece| piece_text(p))[j]);
    }
}

} // verus!
