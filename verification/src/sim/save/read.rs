//! Reading a save document back: the header, one line per field, the
//! room graph replayed edge by edge, the marks, the pieces, and the
//! checks that need the whole board.

use vstd::prelude::*;
use crate::sim::cargo::{Kind, Loc, Piece, dressing_check, spec_dressing, spec_stowable, stowable};
use crate::sim::encounter::{Drone, Encounter};
use crate::sim::event::Phase;
use crate::sim::map::{POI_COUNT, PoiId, ShipState};
use crate::sim::rats::Rat;
use crate::sim::save::migrate::{
    ledger_after, lemma_current_unmigrated, lemma_migrated_alike, migrate_board, migrated, widen_familiar,
};
use crate::sim::save::doc::{SaveDoc, doc_lines, doc_texts, lemma_doc_texts, lemma_save_lines, magic, save_text};
use crate::sim::room::{CABIN, MAX_ROOMS, Rooms, Tile};
use crate::sim::save::lines::{
    MARKS_CAP, edge_ok, id_nats, key_bytes, kv_text, lemma_hex_kv_line_round_trip, lemma_key_bytes,
    lemma_kv_line_round_trip, lemma_list_line_round_trip, lemma_marks_line_round_trip, lemma_omen_line_round_trip,
    lemma_parade_line_round_trip, lemma_room_line_round_trip, lemma_ship_line_round_trip, marks_text, room_text,
    ship_ok, strictly_ascending,
    read_marks, spec_read_marks,
    read_room, spec_read_room,
    Key, RoomEdge, as_u64, read_hex_kv, read_kv, read_list, read_omen, read_parade, read_ship, spec_read_hex_kv,
    spec_read_kv, spec_read_list, spec_read_omen, spec_read_parade, spec_read_ship,
};
use crate::sim::save::{
    berth_readable, cabin_grid, flag_num, lemma_drone_line_round_trip, lemma_enc_line_round_trip,
    lemma_piece_line_round_trip, lemma_rat_line_round_trip, piece_text, w_piece,
    read_piece, spec_read_piece,
    SaveError, read_drone, read_enc, read_rat, spec_read_drone, spec_read_enc, spec_read_rat,
};
use crate::sim::encounter::AD_SWATS;
use crate::sim::rats::CHASE_LIMIT;
use crate::text::{dec_bytes, good_words, lemma_line_words, lemma_words_of_line, lines, lines_from, next_line, words};

verus! {

/// The version a header line names, among those this build reads: its
/// own, `STV16`, and the five before it, `STV15` to `STV11`, whose
/// boards (and, before `STV13`, whose discovery ledgers; before `STV12`,
/// whose room graphs) are brought up to this build's rules after
/// reading.
#[verifier::opaque]
pub open spec fn header_version(l: Seq<u8>) -> Option<u8> {
    if l == magic() {
        Some(16u8)
    } else if l == seq![83u8, 84u8, 86u8, 49u8, 53u8] {
        Some(15u8)
    } else if l == seq![83u8, 84u8, 86u8, 49u8, 52u8] {
        Some(14u8)
    } else if l == seq![83u8, 84u8, 86u8, 49u8, 51u8] {
        Some(13u8)
    } else if l == seq![83u8, 84u8, 86u8, 49u8, 50u8] {
        Some(12u8)
    } else if l == seq![83u8, 84u8, 86u8, 49u8, 49u8] {
        Some(11u8)
    } else {
        None
    }
}

/// This build's own header names version 16.
pub proof fn lemma_own_header()
    ensures
        header_version(magic()) == Some(16u8),
{
    reveal(header_version);
}

/// The version a header line names, among those this build reads.
fn version_of_line(l: &[u8]) -> (r: Option<u8>)
    ensures
        r == header_version(l@),
{
    proof {
        reveal(header_version);
    }
    if l.len() == 5 && l[0] == 83 && l[1] == 84 && l[2] == 86 && l[3] == 49 {
        if l[4] == 54 {
            assert(l@ =~= magic());
            return Some(16);
        } else if l[4] == 53 {
            assert(l@ =~= seq![83u8, 84u8, 86u8, 49u8, 53u8]);
            return Some(15);
        } else if l[4] == 52 {
            assert(l@ =~= seq![83u8, 84u8, 86u8, 49u8, 52u8]);
            return Some(14);
        } else if l[4] == 51 {
            assert(l@ =~= seq![83u8, 84u8, 86u8, 49u8, 51u8]);
            return Some(13);
        } else if l[4] == 50 {
            assert(l@ =~= seq![83u8, 84u8, 86u8, 49u8, 50u8]);
            return Some(12);
        } else if l[4] == 49 {
            assert(l@ =~= seq![83u8, 84u8, 86u8, 49u8, 49u8]);
            return Some(11);
        }
        assert(l@ != magic() && l@ != seq![83u8, 84u8, 86u8, 49u8, 53u8] && l@ != seq![83u8, 84u8, 86u8, 49u8, 52u8]
            && l@ != seq![83u8, 84u8, 86u8, 49u8, 51u8] && l@ != seq![83u8, 84u8, 86u8, 49u8, 50u8]
            && l@ != seq![83u8, 84u8, 86u8, 49u8, 49u8]) by {
            assert(l@[4] == l[4 as int]);
        }
        return None;
    }
    assert(l@ != magic() && l@ != seq![83u8, 84u8, 86u8, 49u8, 53u8] && l@ != seq![83u8, 84u8, 86u8, 49u8, 52u8]
        && l@ != seq![83u8, 84u8, 86u8, 49u8, 51u8] && l@ != seq![83u8, 84u8, 86u8, 49u8, 50u8]
        && l@ != seq![83u8, 84u8, 86u8, 49u8, 49u8]) by {
        if l@.len() == 5 {
            assert(l@[0] == l[0 as int] && l@[1] == l[1 as int] && l@[2] == l[2 as int] && l@[3] == l[3 as int]);
        }
    }
    None
}

/// What the first line says of a document: nothing wrong when it names
/// a version this build reads; an unsupported version when it is some
/// other `STV` header; not a save at all otherwise, or when there is no
/// line.
pub open spec fn header_fault(ls: Seq<Seq<u8>>) -> Option<SaveError> {
    if ls.len() == 0 {
        Some(SaveError::BadMagic)
    } else if header_version(ls[0]) is Some {
        None
    } else if ls[0].len() >= 3 && ls[0][0] == 83 && ls[0][1] == 84 && ls[0][2] == 86 {
        Some(SaveError::UnsupportedVersion)
    } else {
        Some(SaveError::BadMagic)
    }
}

/// Whether line `i` (1 to 16) of the head reads.
pub open spec fn head_line_ok(i: int, l: Seq<u8>) -> bool {
    if i == 1 {
        spec_read_kv(l, Key::Seed, u64::MAX as nat) is Some
    } else if i == 2 {
        spec_read_kv(l, Key::Tick, u64::MAX as nat) is Some
    } else if i == 3 {
        spec_read_hex_kv(l, Key::Rng, u64::MAX as nat) is Some
    } else if i == 4 {
        spec_read_kv(l, Key::Warp, 255) is Some
    } else if i == 5 {
        spec_read_kv(l, Key::Paused, 255) is Some
    } else if i == 6 {
        spec_read_kv(l, Key::Deliveries, u32::MAX as nat) is Some
    } else if i == 7 {
        spec_read_kv(l, Key::Karma, u32::MAX as nat) is Some
    } else if i == 8 {
        spec_read_list(l, Key::Familiar, POI_COUNT as nat, u32::MAX as nat, true) is Some
    } else if i == 9 {
        spec_read_list(l, Key::Visits, POI_COUNT as nat, u32::MAX as nat, false) is Some
    } else if i == 10 {
        spec_read_ship(l) is Some
    } else if i == 11 {
        spec_read_kv(l, Key::Legs, u64::MAX as nat) is Some
    } else if i == 12 {
        spec_read_omen(l) is Some
    } else if i == 13 {
        spec_read_enc(l) is Some
    } else if i == 14 {
        spec_read_drone(l) is Some
    } else if i == 15 {
        spec_read_parade(l) is Some
    } else {
        spec_read_rat(l) is Some
    }
}

/// The head lines after the header: lines 1 to 16.
pub const HEAD_LINES: usize = 17;

/// The first fault among head lines `i` to 16: a missing line (the text
/// ends too early) or one that does not read (its 1-based number).
pub open spec fn head_fault(ls: Seq<Seq<u8>>, i: int) -> Option<SaveError>
    decreases HEAD_LINES - i,
{
    if i < 1 || i >= HEAD_LINES {
        None
    } else if ls.len() <= i {
        Some(SaveError::Parse { line: 0 })
    } else if !head_line_ok(i, ls[i]) {
        Some(SaveError::Parse { line: (i + 1) as usize })
    } else {
        head_fault(ls, i + 1)
    }
}

/// Whether `d`'s fields are what head lines `ls` name.
pub open spec fn head_named(ls: Seq<Seq<u8>>, d: SaveDoc) -> bool {
    &&& head_rest(ls, d)
    &&& ledger_named(ls, d.familiar@)
}

/// Whether ledger `f` is what the `familiar` head line names.
pub open spec fn ledger_named(ls: Seq<Seq<u8>>, f: Seq<u32>) -> bool {
    crate::sim::save::lines::id_nats(f) == spec_read_list(ls[8], Key::Familiar, POI_COUNT as nat, u32::MAX as nat, true)->0
}

/// Whether `d`'s fields other than its ledger are what head lines `ls`
/// name.
pub open spec fn head_rest(ls: Seq<Seq<u8>>, d: SaveDoc) -> bool {
    &&& d.seed as nat == spec_read_kv(ls[1], Key::Seed, u64::MAX as nat)->0
    &&& d.tick as nat == spec_read_kv(ls[2], Key::Tick, u64::MAX as nat)->0
    &&& d.rng as nat == spec_read_hex_kv(ls[3], Key::Rng, u64::MAX as nat)->0
    &&& d.warp == (spec_read_kv(ls[4], Key::Warp, 255)->0 != 0)
    &&& d.paused == (spec_read_kv(ls[5], Key::Paused, 255)->0 != 0)
    &&& d.deliveries as nat == spec_read_kv(ls[6], Key::Deliveries, u32::MAX as nat)->0
    &&& d.karma as nat == spec_read_kv(ls[7], Key::Karma, u32::MAX as nat)->0
    &&& crate::sim::save::lines::id_nats(d.visits@) == spec_read_list(
        ls[9],
        Key::Visits,
        POI_COUNT as nat,
        u32::MAX as nat,
        false,
    )->0
    &&& (d.ship, d.selected, d.stoke) == spec_read_ship(ls[10])->0
    &&& d.legs as nat == spec_read_kv(ls[11], Key::Legs, u64::MAX as nat)->0
    &&& (d.jump_at, d.phase, d.light, d.swell) == spec_read_omen(ls[12])->0
    &&& d.encounter == spec_read_enc(ls[13])->0
    &&& d.drone == spec_read_drone(ls[14])->0
    &&& (d.parade_at, d.comet_visit) == spec_read_parade(ls[15])->0
    &&& d.rat == spec_read_rat(ls[16])->0
}

/// Narrow a list of numbers read no larger than a `u32`.
fn narrow_list(v: &Vec<u64>) -> (r: Vec<u32>)
    requires
        forall|j: int| 0 <= j < v@.len() ==> #[trigger] v@[j] <= u32::MAX,
    ensures
        crate::sim::save::lines::id_nats(r@) == crate::sim::save::lines::nats(v@),
{
    let mut r: Vec<u32> = Vec::new();
    let mut i: usize = 0;
    while i < v.len()
        invariant
            i <= v@.len(),
            forall|j: int| 0 <= j < v@.len() ==> #[trigger] v@[j] <= u32::MAX,
            r@.len() == i,
            forall|j: int| 0 <= j < i ==> #[trigger] r@[j] as u64 == v@[j],
        decreases v@.len() - i,
    {
        r.push(v[i] as u32);
        i = i + 1;
    }
    assert(crate::sim::save::lines::id_nats(r@) =~= crate::sim::save::lines::nats(v@));
    r
}

/// The next line of `text` from `pos`, and where the one after starts;
/// `Parse { line: 0 }` when the text has ended.
fn take_line(text: &[u8], pos: usize) -> (r: Result<(&[u8], usize), SaveError>)
    requires
        pos <= text@.len(),
    ensures
        match r {
            Ok((l, next)) => pos < next <= text@.len() && lines_from(text@, pos as int) == seq![l@] + lines_from(
                text@,
                next as int,
            ),
            Err(e) => e == SaveError::Parse { line: 0 } && lines_from(text@, pos as int).len() == 0,
        },
{
    match next_line(text, pos) {
        Some((end, next)) => Ok((vstd::slice::slice_subrange(text, pos, end), next)),
        None => Err(SaveError::Parse { line: 0 }),
    }
}

/// Line `i` and the rest, from a run of lines starting at `i`.
proof fn lemma_skip_step(ls: Seq<Seq<u8>>, i: int, l: Seq<u8>, rest: Seq<Seq<u8>>)
    requires
        0 <= i <= ls.len(),
        ls.skip(i) == seq![l] + rest,
    ensures
        i < ls.len(),
        ls[i] == l,
        rest == ls.skip(i + 1),
{
    assert(ls.skip(i).len() == ls.len() - i);
    assert(ls.skip(i).len() >= 1);
    assert(ls.skip(i)[0] == l);
    assert(rest =~= ls.skip(i).drop_first());
    assert(ls.skip(i).drop_first() =~= ls.skip(i + 1));
}

/// No line from `i` on: the text ended before line `i`.
proof fn lemma_ran_out(ls: Seq<Seq<u8>>, i: int)
    requires
        0 <= i <= ls.len(),
        ls.skip(i).len() == 0,
    ensures
        ls.len() <= i,
{
}

/// Line `i` of a document whose lines from `pos` are its lines from
/// `i`; `Parse { line: 0 }` when the text has ended.
fn step(text: &[u8], pos: usize, Ghost(ls): Ghost<Seq<Seq<u8>>>, Ghost(i): Ghost<int>) -> (r: Result<
    (&[u8], usize),
    SaveError,
>)
    requires
        pos <= text@.len(),
        0 <= i <= ls.len(),
        lines_from(text@, pos as int) == ls.skip(i),
    ensures
        match r {
            Ok((l, next)) => {
                &&& i < ls.len()
                &&& ls[i] == l@
                &&& pos < next <= text@.len()
                &&& lines_from(text@, next as int) == ls.skip(i + 1)
            },
            Err(e) => e == SaveError::Parse { line: 0 } && ls.len() == i,
        },
{
    match take_line(text, pos) {
        Ok((l, next)) => {
            proof {
                lemma_skip_step(ls, i, l@, lines_from(text@, next as int));
            }
            Ok((l, next))
        },
        Err(e) => {
            proof {
                lemma_ran_out(ls, i);
            }
            Err(e)
        },
    }
}

/// The first head fault from line 1 is the first from line `i`, when
/// every line before `i` is there and reads.
proof fn lemma_fault_from(ls: Seq<Seq<u8>>, i: int)
    requires
        1 <= i <= HEAD_LINES,
        ls.len() >= i,
        forall|j: int| 1 <= j < i ==> #[trigger] head_line_ok(j, ls[j]),
    ensures
        head_fault(ls, 1) == head_fault(ls, i),
    decreases i,
{
    if i > 1 {
        assert(head_line_ok(i - 1, ls[i - 1]));
        lemma_fault_from(ls, i - 1);
    }
}

/// The head fields of lines 1 to 8.
pub struct Front {
    pub seed: u64,
    pub tick: u64,
    pub rng: u64,
    pub warp: u64,
    pub paused: u64,
    pub deliveries: u64,
    pub karma: u64,
    pub familiar: Vec<u64>,
}

/// Whether `f` holds what lines 1 to 8 name.
pub open spec fn front_named(ls: Seq<Seq<u8>>, f: Front) -> bool {
    &&& f.seed as nat == spec_read_kv(ls[1], Key::Seed, u64::MAX as nat)->0
    &&& f.tick as nat == spec_read_kv(ls[2], Key::Tick, u64::MAX as nat)->0
    &&& f.rng as nat == spec_read_hex_kv(ls[3], Key::Rng, u64::MAX as nat)->0
    &&& f.warp as nat == spec_read_kv(ls[4], Key::Warp, 255)->0
    &&& f.paused as nat == spec_read_kv(ls[5], Key::Paused, 255)->0
    &&& f.deliveries as nat == spec_read_kv(ls[6], Key::Deliveries, u32::MAX as nat)->0
    &&& f.karma as nat == spec_read_kv(ls[7], Key::Karma, u32::MAX as nat)->0
    &&& crate::sim::save::lines::nats(f.familiar@) == spec_read_list(
        ls[8],
        Key::Familiar,
        POI_COUNT as nat,
        u32::MAX as nat,
        true,
    )->0
    &&& f.deliveries <= u32::MAX
    &&& f.karma <= u32::MAX
    &&& forall|j: int| 0 <= j < f.familiar@.len() ==> #[trigger] f.familiar@[j] <= u32::MAX
}

/// Lines 1 to 8 of the head.
fn read_front(text: &[u8], pos: usize, Ghost(ls): Ghost<Seq<Seq<u8>>>) -> (r: Result<(Front, usize), SaveError>)
    requires
        pos <= text@.len(),
        1 <= ls.len(),
        lines_from(text@, pos as int) == ls.skip(1),
    ensures
        match r {
            Err(e) => head_fault(ls, 1) == Some(e),
            Ok((f, next)) => {
                &&& ls.len() >= 9
                &&& next <= text@.len()
                &&& lines_from(text@, next as int) == ls.skip(9)
                &&& head_fault(ls, 1) == head_fault(ls, 9)
                &&& front_named(ls, f)
            },
        },
{
    let (l, pos) = match step(text, pos, Ghost(ls), Ghost(1)) {
        Ok(x) => x,
        Err(e) => return Err(e),
    };
    let seed = match read_kv(l, Key::Seed, u64::MAX) {
        Some(v) => v,
        None => return Err(SaveError::Parse { line: 2 }),
    };
    let (l, pos) = match step(text, pos, Ghost(ls), Ghost(2)) {
        Ok(x) => x,
        Err(e) => {
            proof { lemma_fault_from(ls, 2); }
            return Err(e);
        },
    };
    let tick = match read_kv(l, Key::Tick, u64::MAX) {
        Some(v) => v,
        None => {
            proof { lemma_fault_from(ls, 2); }
            return Err(SaveError::Parse { line: 3 });
        },
    };
    let (l, pos) = match step(text, pos, Ghost(ls), Ghost(3)) {
        Ok(x) => x,
        Err(e) => {
            proof { lemma_fault_from(ls, 3); }
            return Err(e);
        },
    };
    let rng = match read_hex_kv(l, Key::Rng, u64::MAX) {
        Some(v) => v,
        None => {
            proof { lemma_fault_from(ls, 3); }
            return Err(SaveError::Parse { line: 4 });
        },
    };
    let (l, pos) = match step(text, pos, Ghost(ls), Ghost(4)) {
        Ok(x) => x,
        Err(e) => {
            proof { lemma_fault_from(ls, 4); }
            return Err(e);
        },
    };
    let warp = match read_kv(l, Key::Warp, 255) {
        Some(v) => v,
        None => {
            proof { lemma_fault_from(ls, 4); }
            return Err(SaveError::Parse { line: 5 });
        },
    };
    let (l, pos) = match step(text, pos, Ghost(ls), Ghost(5)) {
        Ok(x) => x,
        Err(e) => {
            proof { lemma_fault_from(ls, 5); }
            return Err(e);
        },
    };
    let paused = match read_kv(l, Key::Paused, 255) {
        Some(v) => v,
        None => {
            proof { lemma_fault_from(ls, 5); }
            return Err(SaveError::Parse { line: 6 });
        },
    };
    let (l, pos) = match step(text, pos, Ghost(ls), Ghost(6)) {
        Ok(x) => x,
        Err(e) => {
            proof { lemma_fault_from(ls, 6); }
            return Err(e);
        },
    };
    let deliveries = match read_kv(l, Key::Deliveries, u32::MAX as u64) {
        Some(v) => v,
        None => {
            proof { lemma_fault_from(ls, 6); }
            return Err(SaveError::Parse { line: 7 });
        },
    };
    let (l, pos) = match step(text, pos, Ghost(ls), Ghost(7)) {
        Ok(x) => x,
        Err(e) => {
            proof { lemma_fault_from(ls, 7); }
            return Err(e);
        },
    };
    let karma = match read_kv(l, Key::Karma, u32::MAX as u64) {
        Some(v) => v,
        None => {
            proof { lemma_fault_from(ls, 7); }
            return Err(SaveError::Parse { line: 8 });
        },
    };
    let (l, pos) = match step(text, pos, Ghost(ls), Ghost(8)) {
        Ok(x) => x,
        Err(e) => {
            proof { lemma_fault_from(ls, 8); }
            return Err(e);
        },
    };
    let familiar = match read_list(l, Key::Familiar, POI_COUNT, u32::MAX as u64, true) {
        Some(v) => v,
        None => {
            proof { lemma_fault_from(ls, 8); }
            return Err(SaveError::Parse { line: 9 });
        },
    };
    proof {
        lemma_fault_from(ls, 9);
    }
    Ok((Front { seed, tick, rng, warp, paused, deliveries, karma, familiar }, pos))
}

/// The head fields of lines 9 to 16.
pub struct Back {
    pub visits: Vec<u64>,
    pub ship: (ShipState, Option<PoiId>, u64),
    pub legs: u64,
    pub omen: (Option<u64>, Phase, u32, u32),
    pub encounter: Option<Encounter>,
    pub drone: Option<Drone>,
    pub parade: (Option<u64>, Option<u64>),
    pub rat: Option<Rat>,
}

/// Whether `b` holds what lines 9 to 16 name.
pub open spec fn back_named(ls: Seq<Seq<u8>>, b: Back) -> bool {
    &&& crate::sim::save::lines::nats(b.visits@) == spec_read_list(
        ls[9],
        Key::Visits,
        POI_COUNT as nat,
        u32::MAX as nat,
        false,
    )->0
    &&& b.ship == spec_read_ship(ls[10])->0
    &&& b.legs as nat == spec_read_kv(ls[11], Key::Legs, u64::MAX as nat)->0
    &&& b.omen == spec_read_omen(ls[12])->0
    &&& b.encounter == spec_read_enc(ls[13])->0
    &&& b.drone == spec_read_drone(ls[14])->0
    &&& b.parade == spec_read_parade(ls[15])->0
    &&& b.rat == spec_read_rat(ls[16])->0
    &&& forall|j: int| 0 <= j < b.visits@.len() ==> #[trigger] b.visits@[j] <= u32::MAX
}

/// The first head fault from line 9 is the first from line `i`, when
/// every line from 9 to before `i` is there and reads.
proof fn lemma_fault_from_nine(ls: Seq<Seq<u8>>, i: int)
    requires
        9 <= i <= HEAD_LINES,
        ls.len() >= i,
        forall|j: int| 9 <= j < i ==> #[trigger] head_line_ok(j, ls[j]),
    ensures
        head_fault(ls, 9) == head_fault(ls, i),
    decreases i,
{
    if i > 9 {
        assert(head_line_ok(i - 1, ls[i - 1]));
        lemma_fault_from_nine(ls, i - 1);
    }
}

/// Lines 9 to 16 of the head.
fn read_back(text: &[u8], pos: usize, Ghost(ls): Ghost<Seq<Seq<u8>>>) -> (r: Result<(Back, usize), SaveError>)
    requires
        pos <= text@.len(),
        9 <= ls.len(),
        lines_from(text@, pos as int) == ls.skip(9),
    ensures
        match r {
            Err(e) => head_fault(ls, 9) == Some(e),
            Ok((b, next)) => {
                &&& ls.len() >= HEAD_LINES
                &&& next <= text@.len()
                &&& lines_from(text@, next as int) == ls.skip(HEAD_LINES as int)
                &&& head_fault(ls, 9) is None
                &&& back_named(ls, b)
            },
        },
{
    let (l, pos) = match step(text, pos, Ghost(ls), Ghost(9)) {
        Ok(x) => x,
        Err(e) => {
            proof {
                lemma_fault_from_nine(ls, 9);
            }
            return Err(e);
        },
    };
    let visits = match read_list(l, Key::Visits, POI_COUNT, u32::MAX as u64, false) {
        Some(v) => v,
        None => {
            proof {
                lemma_fault_from_nine(ls, 9);
            }
            return Err(SaveError::Parse { line: 10 });
        },
    };
    let (l, pos) = match step(text, pos, Ghost(ls), Ghost(10)) {
        Ok(x) => x,
        Err(e) => {
            proof {
                lemma_fault_from_nine(ls, 10);
            }
            return Err(e);
        },
    };
    let ship = match read_ship(l) {
        Some(v) => v,
        None => {
            proof {
                lemma_fault_from_nine(ls, 10);
            }
            return Err(SaveError::Parse { line: 11 });
        },
    };
    let (l, pos) = match step(text, pos, Ghost(ls), Ghost(11)) {
        Ok(x) => x,
        Err(e) => {
            proof {
                lemma_fault_from_nine(ls, 11);
            }
            return Err(e);
        },
    };
    let legs = match read_kv(l, Key::Legs, u64::MAX) {
        Some(v) => v,
        None => {
            proof {
                lemma_fault_from_nine(ls, 11);
            }
            return Err(SaveError::Parse { line: 12 });
        },
    };
    let (l, pos) = match step(text, pos, Ghost(ls), Ghost(12)) {
        Ok(x) => x,
        Err(e) => {
            proof {
                lemma_fault_from_nine(ls, 12);
            }
            return Err(e);
        },
    };
    let omen = match read_omen(l) {
        Some(v) => v,
        None => {
            proof {
                lemma_fault_from_nine(ls, 12);
            }
            return Err(SaveError::Parse { line: 13 });
        },
    };
    let (l, pos) = match step(text, pos, Ghost(ls), Ghost(13)) {
        Ok(x) => x,
        Err(e) => {
            proof {
                lemma_fault_from_nine(ls, 13);
            }
            return Err(e);
        },
    };
    let encounter = match read_enc(l) {
        Some(v) => v,
        None => {
            proof {
                lemma_fault_from_nine(ls, 13);
            }
            return Err(SaveError::Parse { line: 14 });
        },
    };
    let (l, pos) = match step(text, pos, Ghost(ls), Ghost(14)) {
        Ok(x) => x,
        Err(e) => {
            proof {
                lemma_fault_from_nine(ls, 14);
            }
            return Err(e);
        },
    };
    let drone = match read_drone(l) {
        Some(v) => v,
        None => {
            proof {
                lemma_fault_from_nine(ls, 14);
            }
            return Err(SaveError::Parse { line: 15 });
        },
    };
    let (l, pos) = match step(text, pos, Ghost(ls), Ghost(15)) {
        Ok(x) => x,
        Err(e) => {
            proof {
                lemma_fault_from_nine(ls, 15);
            }
            return Err(e);
        },
    };
    let parade = match read_parade(l) {
        Some(v) => v,
        None => {
            proof {
                lemma_fault_from_nine(ls, 15);
            }
            return Err(SaveError::Parse { line: 16 });
        },
    };
    let (l, pos) = match step(text, pos, Ghost(ls), Ghost(16)) {
        Ok(x) => x,
        Err(e) => {
            proof {
                lemma_fault_from_nine(ls, 16);
            }
            return Err(e);
        },
    };
    let rat = match read_rat(l) {
        Some(v) => v,
        None => {
            proof {
                lemma_fault_from_nine(ls, 16);
            }
            return Err(SaveError::Parse { line: 17 });
        },
    };
    proof {
        lemma_fault_from_nine(ls, 17);
    }
    Ok((Back { visits, ship, legs, omen, encounter, drone, parade, rat }, pos))
}

/// A document with the head fields `f` and `b` name, and nothing in its
/// graph, marks or board yet.
fn assemble(f: Front, b: Back, Ghost(ls): Ghost<Seq<Seq<u8>>>) -> (d: SaveDoc)
    requires
        ls.len() >= HEAD_LINES,
        front_named(ls, f),
        back_named(ls, b),
    ensures
        head_named(ls, d),
        d.rooms@.len() == 0,
        d.marks@.len() == 0,
        d.pieces@.len() == 0,
        d.next_piece == 0,
{
    let familiar = narrow_list(&f.familiar);
    let visits = narrow_list(&b.visits);
    SaveDoc {
        seed: f.seed,
        tick: f.tick,
        rng: f.rng,
        warp: f.warp != 0,
        paused: f.paused != 0,
        deliveries: f.deliveries as u32,
        karma: f.karma as u32,
        familiar,
        visits,
        ship: b.ship.0,
        selected: b.ship.1,
        stoke: b.ship.2,
        legs: b.legs,
        jump_at: b.omen.0,
        phase: b.omen.1,
        light: b.omen.2,
        swell: b.omen.3,
        encounter: b.encounter,
        drone: b.drone,
        parade_at: b.parade.0,
        comet_visit: b.parade.1,
        rat: b.rat,
        rooms: Vec::new(),
        marks: Vec::new(),
        pieces: Vec::new(),
        next_piece: 0,
    }
}

/// Read the header and the head lines: the document's fields before the
/// room graph, with nothing in its graph, marks or board yet; and where
/// the room graph's lines start.
pub fn read_head(text: &[u8]) -> (r: Result<(SaveDoc, usize), SaveError>)
    ensures
        ({
            let ls = lines(text@);
            match header_fault(ls) {
                Some(e) => r == Err::<(SaveDoc, usize), SaveError>(e),
                None => match head_fault(ls, 1) {
                    Some(e) => r == Err::<(SaveDoc, usize), SaveError>(e),
                    None => r matches Ok((d, pos)) && {
                        &&& pos <= text@.len()
                        &&& ls.len() >= HEAD_LINES
                        &&& head_named(ls, d)
                        &&& lines_from(text@, pos as int) == ls.skip(HEAD_LINES as int)
                        &&& d.rooms@.len() == 0
                        &&& d.marks@.len() == 0
                        &&& d.pieces@.len() == 0
                        &&& d.next_piece == 0
                    },
                },
            }
        }),
{
    let ghost ls = lines(text@);
    assert(ls.skip(0) =~= ls);
    let (l, next) = match take_line(text, 0) {
        Ok(x) => x,
        Err(e) => {
            return Err(SaveError::BadMagic);
        },
    };
    proof {
        lemma_skip_step(ls, 0, l@, lines_from(text@, next as int));
    }
    if version_of_line(l).is_none() {
        if l.len() >= 3 && l[0] == 83 && l[1] == 84 && l[2] == 86 {
            return Err(SaveError::UnsupportedVersion);
        }
        return Err(SaveError::BadMagic);
    }
    let (f, pos) = match read_front(text, next, Ghost(ls)) {
        Ok(x) => x,
        Err(e) => return Err(e),
    };
    let (b, pos) = match read_back(text, pos, Ghost(ls)) {
        Ok(x) => x,
        Err(e) => return Err(e),
    };
    let d = assemble(f, b, Ghost(ls));
    Ok((d, pos))
}

// ---------------------------------------------------------------------
// The room graph
// ---------------------------------------------------------------------

/// Whether `rooms` is the graph edge list `es` describes: exactly those
/// rooms, attached in that order, each of its kind and hanging from its
/// mate.
pub open spec fn follows_edges(rooms: Rooms, es: Seq<RoomEdge>) -> bool {
    &&& rooms.wf()
    &&& rooms.attach_order() == es.map_values(|e: RoomEdge| e.id)
    &&& forall|i: int|
        0 <= i < es.len() ==> ((#[trigger] rooms.room_at(es[i].id as int)) matches Some(room) && room.kind
            == es[i].kind && room.anchor == es[i].anchor)
}

/// Whether an edge list is shaped as a graph's: a root in the cabin's
/// slot first, every later room hanging from a mate.
pub open spec fn rooted(es: Seq<RoomEdge>) -> bool {
    &&& es.len() >= 1
    &&& es[0].id == CABIN
    &&& es[0].anchor is None
    &&& forall|i: int| 1 <= i < es.len() ==> (#[trigger] es[i]).anchor is Some
}

/// Whether lines `ls` from index `at` hold the room count and the room
/// lines of edge list `es`.
pub open spec fn rooms_named(ls: Seq<Seq<u8>>, at: int, es: Seq<RoomEdge>) -> bool {
    &&& ls.len() >= at + 1 + es.len()
    &&& spec_read_kv(ls[at], Key::Rooms, MAX_ROOMS as nat) == Some(es.len())
    &&& forall|j: int| 0 <= j < es.len() ==> spec_read_room(#[trigger] ls[at + 1 + j]) == Some(es[j])
}

/// A fault in a document's body: a line that refuses (its error), or a
/// room edge that a graph built from the edges before it may refuse —
/// whether it does turns on the geometry of that graph.
pub enum Fault {
    At(SaveError),
    Refused,
}

/// The edges the first `n` room lines name.
pub open spec fn edges_of_lines(ls: Seq<Seq<u8>>, n: int) -> Seq<RoomEdge> {
    Seq::new(n as nat, |j: int| spec_read_room(ls[HEAD_LINES + 1 + j])->0)
}

/// Whether every graph that follows the first `k` edges of `es` takes
/// edge `k`: a free slot, a mate to hang from, and a pose the graph
/// validates.
pub open spec fn edge_accepted(es: Seq<RoomEdge>, k: int) -> bool {
    forall|g: Rooms|
        #[trigger] follows_edges(g, es.take(k)) ==> {
            &&& !g.present(es[k].id as int)
            &&& es[k].anchor matches Some(m) && g.spec_validate(m.0 as int, m.1 as int, es[k].kind, m.2 as int) is Ok
        }
}

/// Whether every edge after the root is taken by the graph the edges
/// before it build.
pub open spec fn edges_replay(es: Seq<RoomEdge>) -> bool {
    forall|k: int| 1 <= k < es.len() ==> #[trigger] edge_accepted(es, k)
}

/// The first fault among room lines `k` to `c - 1`.
pub open spec fn rooms_fault(ls: Seq<Seq<u8>>, c: int, k: int) -> Option<Fault>
    decreases c - k,
{
    if k < 0 || k >= c {
        None
    } else if ls.len() <= HEAD_LINES + 1 + k {
        Some(Fault::At(SaveError::Parse { line: 0 }))
    } else {
        match spec_read_room(ls[HEAD_LINES + 1 + k]) {
            None => Some(Fault::At(SaveError::Parse { line: (HEAD_LINES + 2 + k) as usize })),
            Some(e) => if k == 0 {
                if e.id == CABIN && e.anchor is None {
                    rooms_fault(ls, c, k + 1)
                } else {
                    Some(Fault::At(SaveError::Parse { line: (HEAD_LINES + 2) as usize }))
                }
            } else if e.anchor is None {
                Some(Fault::At(SaveError::Parse { line: (HEAD_LINES + 2 + k) as usize }))
            } else if !edge_accepted(edges_of_lines(ls, k + 1), k) {
                Some(Fault::Refused)
            } else {
                rooms_fault(ls, c, k + 1)
            },
        }
    }
}

/// The first fault of the room block: its count line, then its room
/// lines.
pub open spec fn rooms_block_fault(ls: Seq<Seq<u8>>) -> Option<Fault> {
    if ls.len() <= HEAD_LINES {
        Some(Fault::At(SaveError::Parse { line: 0 }))
    } else {
        match spec_read_kv(ls[HEAD_LINES as int], Key::Rooms, MAX_ROOMS as nat) {
            Some(c) => if c == 0 {
                Some(Fault::At(SaveError::Parse { line: (HEAD_LINES + 1) as usize }))
            } else {
                rooms_fault(ls, c as int, 0)
            },
            None => Some(Fault::At(SaveError::Parse { line: (HEAD_LINES + 1) as usize })),
        }
    }
}

/// A graph that follows edge list `es`: every such graph holds the same
/// kind of room in every slot, and a body reads the same against each.
pub open spec fn graph_of(es: Seq<RoomEdge>) -> Rooms {
    choose|g: Rooms| follows_edges(g, es)
}

/// The pieces the piece lines from index `i` on name, up to the first
/// line that is not one, read against `rooms`.
pub open spec fn pieces_read(rooms: Rooms, ls: Seq<Seq<u8>>, i: int) -> Seq<Piece>
    decreases ls.len() - i,
{
    if i < 0 || i >= ls.len() {
        Seq::empty()
    } else {
        match spec_read_piece(rooms, ls[i]) {
            Some(p) => seq![p] + pieces_read(rooms, ls, i + 1),
            None => Seq::empty(),
        }
    }
}

/// The first fault of a document's body, read in the order a reader
/// meets it: the room block, the marks line, the piece lines and the
/// `next_piece` line, then the rules that need the whole board (named
/// at the `next_piece` line).
pub open spec fn body_fault(ls: Seq<Seq<u8>>) -> Option<Fault> {
    match rooms_block_fault(ls) {
        Some(f) => Some(f),
        None => {
            let c = spec_read_kv(ls[HEAD_LINES as int], Key::Rooms, MAX_ROOMS as nat)->0 as int;
            let g = graph_of(edges_of_lines(ls, c));
            if ls.len() <= HEAD_LINES + 1 + c {
                Some(Fault::At(SaveError::Parse { line: 0 }))
            } else if spec_read_marks(ls[HEAD_LINES + 1 + c]) is None {
                Some(Fault::At(SaveError::Parse { line: (HEAD_LINES + 2 + c) as usize }))
            } else {
                match pieces_fault(g, ls, HEAD_LINES + 2 + c) {
                    Some(e) => Some(Fault::At(e)),
                    None => {
                        let ps = pieces_read(g, ls, HEAD_LINES + 2 + c);
                        if stows_fault(g, ps) {
                            Some(Fault::At(SaveError::Parse { line: (HEAD_LINES + 3 + c + ps.len()) as usize }))
                        } else {
                            None
                        }
                    },
                }
            }
        },
    }
}

/// Whether room line `w`, read after the edges `before`, is kept as edge
/// `h`: as written, or, in a document from when every kind declared all
/// six ports (`six`), as the same room of the same kind re-seated
/// through the spawn walk because no graph the edges before it build
/// takes it where it was written.
pub open spec fn edge_kept(w: RoomEdge, h: RoomEdge, before: Seq<RoomEdge>, six: bool) -> bool {
    ||| w == h
    ||| six && w.id == h.id && w.kind == h.kind && w.anchor is Some && h.anchor is Some && !edge_accepted(
        before.push(w),
        before.len() as int,
    )
}

/// Whether lines `ls` from index `at` hold the room count and room lines
/// that read as edge list `es`: each as written, or, where `six`, kept
/// as [`edge_kept`] says.
pub open spec fn rooms_held(ls: Seq<Seq<u8>>, at: int, es: Seq<RoomEdge>, six: bool) -> bool {
    if six {
        &&& ls.len() >= at + 1 + es.len()
        &&& spec_read_kv(ls[at], Key::Rooms, MAX_ROOMS as nat) == Some(es.len())
        &&& forall|j: int|
            0 <= j < es.len() ==> ((#[trigger] spec_read_room(ls[at + 1 + j])) matches Some(w) && edge_kept(
                w,
                es[j],
                es.take(j),
                true,
            ))
    } else {
        rooms_named(ls, at, es)
    }
}

/// Whether a document's header names a version from before `STV12`,
/// when every room kind declared all six ports.
pub open spec fn six_ported(ls: Seq<Seq<u8>>) -> bool {
    &&& ls.len() >= 1
    &&& (header_version(ls[0]) matches Some(v) && v < 12)
}

/// A graph with the rooms and order of one that follows `es`, with one
/// more room placed in it, follows `es` and that room's edge.
proof fn lemma_attached(before: Rooms, pre: Rooms, after: Rooms, es: Seq<RoomEdge>, h: RoomEdge, pose: crate::sim::room::Pose)
    requires
        follows_edges(before, es),
        forall|id: int| #[trigger] pre.room_at(id) == before.room_at(id),
        pre.attach_order() == before.attach_order(),
        after.wf(),
        after.placed(pre, h.id as int, h.kind, pose, h.anchor),
    ensures
        follows_edges(after, es.push(h)),
{
    let es2 = es.push(h);
    assert(!before.present(h.id as int));
    assert forall|i: int| 0 <= i < es2.len() implies ((#[trigger] after.room_at(es2[i].id as int)) matches Some(
        room,
    ) && room.kind == es2[i].kind && room.anchor == es2[i].anchor) by {
        if i < es.len() {
            assert(es2[i] == es[i]);
            assert(before.room_at(es[i].id as int) is Some);
            assert(pre.room_at(es[i].id as int) is Some);
            assert(es[i].id != h.id);
            assert(after.present(es[i].id as int));
        }
    }
    assert(es2.map_values(|x: RoomEdge| x.id) =~= es.map_values(|x: RoomEdge| x.id).push(h.id));
}

/// The room block: a count no larger than [`MAX_ROOMS`] and not zero,
/// then that many `room` lines in attach order, each replayed through
/// the same validated attach the game uses — the first as the root in
/// the cabin's slot, every later one at its recorded mate. A document
/// that lies about its graph is refused at the line that lies, unless
/// it is from when every kind declared six ports (`six`): then a room
/// whose recorded mate the graph refuses is re-seated through the spawn
/// walk from that mate, keeping its id, and refused only where the walk
/// finds no berth.
fn read_rooms(text: &[u8], pos: usize, Ghost(ls): Ghost<Seq<Seq<u8>>>, six: bool) -> (r: Result<
    (Vec<RoomEdge>, Rooms, usize),
    SaveError,
>)
    requires
        pos <= text@.len(),
        HEAD_LINES <= ls.len(),
        lines_from(text@, pos as int) == ls.skip(HEAD_LINES as int),
    ensures
        match r {
            Ok((es, rooms, next)) => {
                &&& rooms_held(ls, HEAD_LINES as int, es@, six)
                &&& (!six || rooms_block_fault(ls) != Some(Fault::Refused)) ==> es@ == edges_of_lines(
                    ls,
                    es@.len() as int,
                )
                &&& rooted(es@)
                &&& follows_edges(rooms, es@)
                &&& next <= text@.len()
                &&& lines_from(text@, next as int) == ls.skip(HEAD_LINES + 1 + es@.len())
            },
            Err(e) => e is Parse,
        },
        match rooms_block_fault(ls) {
            Some(Fault::At(e)) => r == Err::<(Vec<RoomEdge>, Rooms, usize), SaveError>(e),
            None => r is Ok,
            Some(Fault::Refused) => true,
        },
{
    let (l, pos) = match step(text, pos, Ghost(ls), Ghost(HEAD_LINES as int)) {
        Ok(x) => x,
        Err(e) => return Err(e),
    };
    let count = match read_kv(l, Key::Rooms, MAX_ROOMS as u64) {
        Some(c) => c as usize,
        None => return Err(SaveError::Parse { line: HEAD_LINES + 1 }),
    };
    if count == 0 {
        return Err(SaveError::Parse { line: HEAD_LINES + 1 });
    }
    let ghost c = count as int;
    let mut es: Vec<RoomEdge> = Vec::new();
    let (l, pos) = match step(text, pos, Ghost(ls), Ghost(HEAD_LINES + 1)) {
        Ok(x) => x,
        Err(e) => return Err(e),
    };
    let root = match read_room(l) {
        Some(e) => e,
        None => return Err(SaveError::Parse { line: HEAD_LINES + 2 }),
    };
    if root.id != CABIN || root.anchor.is_some() {
        return Err(SaveError::Parse { line: HEAD_LINES + 2 });
    }
    let mut rooms = Rooms::root(root.kind);
    es.push(root);
    proof {
        assert(es@.map_values(|e: RoomEdge| e.id) =~= seq![CABIN]);
        assert(es@ =~= edges_of_lines(ls, 1));
        assert(rooms_fault(ls, c, 0) == rooms_fault(ls, c, 1));
        assert(edge_kept(es@[0], es@[0], es@.take(0), six));
    }
    let mut pos = pos;
    let mut k: usize = 1;
    while k < count
        invariant
            1 <= k <= count <= MAX_ROOMS,
            c == count,
            pos <= text@.len(),
            ls.len() >= HEAD_LINES + 1 + k,
            lines_from(text@, pos as int) == ls.skip(HEAD_LINES + 1 + k),
            spec_read_kv(ls[HEAD_LINES as int], Key::Rooms, MAX_ROOMS as nat) == Some(count as nat),
            es@.len() == k,
            forall|j: int|
                0 <= j < k ==> ((#[trigger] spec_read_room(ls[HEAD_LINES + 1 + j])) matches Some(w) && edge_kept(
                    w,
                    es@[j],
                    es@.take(j),
                    six,
                )),
            rooted(es@),
            follows_edges(rooms, es@),
            !six ==> es@ == edges_of_lines(ls, k as int),
            rooms_fault(ls, c, 0) == Some(Fault::Refused) || (rooms_fault(ls, c, 0) == rooms_fault(ls, c, k as int)
                && es@ == edges_of_lines(ls, k as int)),
        decreases count - k,
    {
        let (l, next) = match step(text, pos, Ghost(ls), Ghost(HEAD_LINES + 1 + k)) {
            Ok(x) => x,
            Err(e) => return Err(e),
        };
        let line_no = HEAD_LINES + 2 + k;
        let e = match read_room(l) {
            Some(e) => e,
            None => return Err(SaveError::Parse { line: line_no }),
        };
        let (anchor, anchor_port, port) = match e.anchor {
            Some(m) => m,
            None => return Err(SaveError::Parse { line: line_no }),
        };
        let ghost before = rooms;
        let ghost old_es = es@;
        let ghost cand = es@.push(e);
        let ghost next_es = edges_of_lines(ls, k + 1);
        proof {
            assert(cand.take(k as int) =~= es@);
            assert(cand[k as int] == e);
            assert(next_es[k as int] == e);
            if es@ == edges_of_lines(ls, k as int) {
                assert(next_es =~= cand);
            }
        }
        let held = match rooms.replay(e.id, anchor, anchor_port, e.kind, port) {
            Ok(()) => {
                proof {
                    Rooms::lemma_same_view(before, before);
                    let pose = rooms.room_at(e.id as int)->0.pose;
                    lemma_attached(before, before, rooms, old_es, e, pose);
                }
                e
            },
            Err(_) => {
                proof {
                    assert(follows_edges(before, cand.take(k as int)));
                    assert(!edge_accepted(cand, k as int));
                }
                if !six {
                    return Err(SaveError::Parse { line: line_no });
                }
                let ghost failed = rooms;
                proof {
                    Rooms::lemma_same_view(failed, before);
                }
                match rooms.reseat(e.id, e.kind, anchor) {
                    Ok(()) => {},
                    Err(_) => return Err(SaveError::Parse { line: line_no }),
                }
                let ghost start = if failed.present(anchor as int) {
                    anchor
                } else {
                    CABIN
                };
                proof {
                    let w = choose|w: (u8, u8, u8)| #[trigger] rooms.walked(failed, e.id as int, e.kind, start, w);
                    assert(rooms.walked(failed, e.id as int, e.kind, start, w));
                    assert(rooms.room_at(e.id as int) is Some);
                }
                let a = rooms.get(e.id).unwrap().anchor;
                let h = RoomEdge { id: e.id, kind: e.kind, anchor: a };
                proof {
                    let w = choose|w: (u8, u8, u8)| #[trigger] rooms.walked(failed, e.id as int, e.kind, start, w);
                    let pose = failed.walk_try(e.kind, w)->Ok_0;
                    assert(rooms.placed(failed, e.id as int, e.kind, pose, Some(w)));
                    assert(h.anchor == Some(w));
                    lemma_attached(before, failed, rooms, old_es, h, pose);
                }
                h
            },
        };
        es.push(held);
        proof {
            assert(es@ =~= old_es.push(held));
            assert forall|j: int| 0 <= j < k + 1 implies ((#[trigger] spec_read_room(
                ls[HEAD_LINES + 1 + j],
            )) matches Some(w) && edge_kept(w, es@[j], es@.take(j), six)) by {
                assert(es@.take(j) =~= old_es.take(j)) by {
                    assert forall|i: int| 0 <= i < j implies es@.take(j)[i] == old_es.take(j)[i] by {}
                }
                if j < k {
                    assert(es@[j] == old_es[j]);
                } else {
                    assert(es@.take(j) =~= old_es);
                }
            }
            if old_es == edges_of_lines(ls, k as int) {
                if held == e {
                    assert(es@ =~= next_es);
                }
                if edge_accepted(next_es, k as int) {
                    assert(rooms_fault(ls, c, k as int) == rooms_fault(ls, c, k + 1));
                } else {
                    assert(rooms_fault(ls, c, k as int) == Some(Fault::Refused));
                }
            }
        }
        pos = next;
        k = k + 1;
    }
    Ok((es, rooms, pos))
}

// ---------------------------------------------------------------------
// The board
// ---------------------------------------------------------------------

/// The lines of a text are no more than its bytes.
proof fn lemma_lines_len(s: Seq<u8>, i: int)
    requires
        0 <= i <= s.len(),
    ensures
        lines_from(s, i).len() <= s.len() - i,
    decreases s.len() - i,
{
    if i < s.len() {
        crate::text::lemma_line_end_bounds(s, i);
        let e = crate::text::line_end(s, i);
        if e < s.len() {
            lemma_lines_len(s, e + 1);
        }
    }
}

/// The first fault reading piece lines from index `i` on: the text
/// ending before a `next_piece` line, or a line that is neither a piece
/// that reads against `rooms` nor a `next_piece` line.
pub open spec fn pieces_fault(rooms: Rooms, ls: Seq<Seq<u8>>, i: int) -> Option<SaveError>
    decreases ls.len() - i,
{
    if i < 0 {
        None
    } else if i >= ls.len() {
        Some(SaveError::Parse { line: 0 })
    } else if spec_read_piece(rooms, ls[i]) is Some {
        pieces_fault(rooms, ls, i + 1)
    } else if spec_read_kv(ls[i], Key::NextPiece, u32::MAX as nat) is Some {
        None
    } else {
        Some(SaveError::Parse { line: (i + 1) as usize })
    }
}

/// Whether lines `ls` from index `at` hold the piece lines of `ps`, read
/// against `rooms`, then the `next_piece` line naming `next`.
pub open spec fn pieces_named(rooms: Rooms, ls: Seq<Seq<u8>>, at: int, ps: Seq<Piece>, next: u32) -> bool {
    &&& ls.len() > at + ps.len()
    &&& forall|j: int| 0 <= j < ps.len() ==> spec_read_piece(rooms, #[trigger] ls[at + j]) == Some(ps[j])
    &&& spec_read_piece(rooms, ls[at + ps.len()]) is None
    &&& spec_read_kv(ls[at + ps.len()], Key::NextPiece, u32::MAX as nat) == Some(next as nat)
}

/// The piece lines from index `at` on, read against `rooms`, and the
/// `next_piece` line that ends them.
fn read_pieces(text: &[u8], pos: usize, rooms: &Rooms, Ghost(ls): Ghost<Seq<Seq<u8>>>, at: usize) -> (r: Result<
    (Vec<Piece>, u32, usize),
    SaveError,
>)
    requires
        pos <= text@.len(),
        ls == lines(text@),
        at <= ls.len(),
        lines_from(text@, pos as int) == ls.skip(at as int),
    ensures
        match pieces_fault(*rooms, ls, at as int) {
            Some(e) => r == Err::<(Vec<Piece>, u32, usize), SaveError>(e),
            None => r matches Ok((ps, n, next)) && {
                &&& pieces_named(*rooms, ls, at as int, ps@, n)
                &&& next <= text@.len()
                &&& lines_from(text@, next as int) == ls.skip(at + ps@.len() + 1)
            },
        },
{
    proof {
        lemma_lines_len(text@, 0);
    }
    let tl = text.len();
    assert(text@.len() <= usize::MAX);
    let mut ps: Vec<Piece> = Vec::new();
    let mut pos = pos;
    let mut idx = at;
    loop
        invariant
            pos <= text@.len(),
            text@.len() <= usize::MAX,
            ls == lines(text@),
            ls.len() <= text@.len(),
            idx == at + ps@.len(),
            idx <= ls.len(),
            lines_from(text@, pos as int) == ls.skip(idx as int),
            pieces_fault(*rooms, ls, at as int) == pieces_fault(*rooms, ls, idx as int),
            forall|j: int| 0 <= j < ps@.len() ==> spec_read_piece(*rooms, #[trigger] ls[at + j]) == Some(ps@[j]),
        decreases text@.len() - pos,
    {
        let (l, next) = match step(text, pos, Ghost(ls), Ghost(idx as int)) {
            Ok(x) => x,
            Err(e) => return Err(e),
        };
        match read_piece(rooms, l) {
            Some(p) => {
                let ghost old_ps = ps@;
                ps.push(p);
                proof {
                    assert forall|j: int| 0 <= j < ps@.len() implies spec_read_piece(*rooms, #[trigger] ls[at + j])
                        == Some(ps@[j]) by {
                        if j < old_ps.len() {
                            assert(ps@[j] == old_ps[j]);
                        }
                    }
                    let t = text@;
                    assert(lines_from(t, pos as int).len() <= t.len() - pos) by {
                        lemma_lines_len(t, pos as int);
                    }
                }
                pos = next;
                idx = idx + 1;
            },
            None => {
                return match read_kv(l, Key::NextPiece, u32::MAX as u64) {
                    Some(n) => Ok((ps, n as u32, next)),
                    None => Err(SaveError::Parse { line: idx + 1 }),
                };
            },
        }
    }
}

/// Whether piece `cabinet` is a cabinet standing in a room: a cubby
/// host.
pub open spec fn hosts_cubby(pieces: Seq<Piece>, cabinet: u32) -> bool {
    exists|h: int|
        0 <= h < pieces.len() && (#[trigger] pieces[h]).id == cabinet && pieces[h].kind == Kind::Cabinet
            && pieces[h].loc is Hold
}

/// Whether the board from piece `k` on breaks a rule that needs the
/// whole board, with cubbies `seen` taken and dressings `laid` down so
/// far: a stow's host must be a cabinet standing in a room, the cargo
/// stowable, no cubby doubled; a dressing must not clash with the
/// dressings before it; nothing may stand on a threshold or off a net.
pub open spec fn stow_fault_from(rooms: Rooms, pieces: Seq<Piece>, k: int, seen: Seq<(u32, u8)>, laid: Seq<Piece>) -> bool
    decreases pieces.len() - k,
{
    if k < 0 || k >= pieces.len() {
        false
    } else {
        let p = pieces[k];
        match p.loc {
            Loc::Stow { cabinet, slot } => if !hosts_cubby(pieces, cabinet) || !spec_stowable(p.kind) || seen.contains(
                (cabinet, slot),
            ) {
                true
            } else {
                stow_fault_from(rooms, pieces, k + 1, seen.push((cabinet, slot)), laid)
            },
            Loc::Laid { room, x, y } => if spec_dressing(rooms, laid, p.id, p.kind, room, x, y) is Err {
                true
            } else {
                stow_fault_from(rooms, pieces, k + 1, seen, laid.push(p))
            },
            Loc::Hold { room, x, y } => if rooms.tile_at(room as int, x as int, y as int) is None || rooms.tile_at(
                room as int,
                x as int,
                y as int,
            ) == Some(Tile::Threshold) {
                true
            } else {
                stow_fault_from(rooms, pieces, k + 1, seen, laid)
            },
        }
    }
}

/// Whether the board breaks a rule that needs the whole board.
pub open spec fn stows_fault(rooms: Rooms, pieces: Seq<Piece>) -> bool {
    stow_fault_from(rooms, pieces, 0, Seq::empty(), Seq::empty())
}

/// Whether every laid piece of the board is a covering.
pub open spec fn laid_are_coverings(pieces: Seq<Piece>) -> bool {
    forall|k: int| 0 <= k < pieces.len() && (#[trigger] pieces[k]).loc is Laid ==> pieces[k].kind.spec_covering()
}

/// Whether some piece of the board is a cabinet standing in a room with
/// id `cabinet`.
fn find_host(pieces: &[Piece], cabinet: u32) -> (r: bool)
    ensures
        r == hosts_cubby(pieces@, cabinet),
{
    let mut h: usize = 0;
    while h < pieces.len()
        invariant
            h <= pieces@.len(),
            forall|q: int|
                0 <= q < h ==> !((#[trigger] pieces@[q]).id == cabinet && pieces@[q].kind == Kind::Cabinet
                    && pieces@[q].loc is Hold),
        decreases pieces@.len() - h,
    {
        let p = pieces[h];
        let standing = match p.loc {
            Loc::Hold { .. } => true,
            _ => false,
        };
        if p.id == cabinet && p.kind == Kind::Cabinet && standing {
            return true;
        }
        h = h + 1;
    }
    false
}

/// Whether cubby `(cabinet, slot)` is among `seen`.
fn cubby_seen(seen: &Vec<(u32, u8)>, cubby: (u32, u8)) -> (r: bool)
    ensures
        r == seen@.contains(cubby),
{
    let mut i: usize = 0;
    while i < seen.len()
        invariant
            i <= seen@.len(),
            forall|q: int| 0 <= q < i ==> seen@[q] != cubby,
        decreases seen@.len() - i,
    {
        if seen[i].0 == cubby.0 && seen[i].1 == cubby.1 {
            proof {
                assert(seen@[i as int] == cubby);
            }
            return true;
        }
        i = i + 1;
    }
    false
}

/// The rules that need the whole board, checked once every piece line
/// is in (a cubby may name a cabinet on a later line): whether the board
/// breaks one.
pub fn validate_stows(rooms: &Rooms, pieces: &[Piece]) -> (r: bool)
    requires
        laid_are_coverings(pieces@),
    ensures
        r == stows_fault(*rooms, pieces@),
{
    let mut seen: Vec<(u32, u8)> = Vec::new();
    let mut laid: Vec<Piece> = Vec::new();
    let mut k: usize = 0;
    while k < pieces.len()
        invariant
            k <= pieces@.len(),
            laid_are_coverings(pieces@),
            stows_fault(*rooms, pieces@) == stow_fault_from(*rooms, pieces@, k as int, seen@, laid@),
        decreases pieces@.len() - k,
    {
        let p = pieces[k];
        match p.loc {
            Loc::Stow { cabinet, slot } => {
                if !find_host(pieces, cabinet) || !stowable(p.kind) || cubby_seen(&seen, (cabinet, slot)) {
                    return true;
                }
                seen.push((cabinet, slot));
            },
            Loc::Laid { room, x, y } => {
                assert(pieces@[k as int].loc is Laid);
                if dressing_check(rooms, laid.as_slice(), p.id, p.kind, room, x, y).is_err() {
                    return true;
                }
                laid.push(p);
            },
            Loc::Hold { room, x, y } => {
                match rooms.tile(room, x, y) {
                    None => return true,
                    Some(t) => if t == Tile::Threshold {
                        return true;
                    },
                }
            },
        }
        k = k + 1;
    }
    false
}

/// Whether mark `id` names a piece standing on a stock tile.
pub open spec fn on_stock(rooms: Rooms, pieces: Seq<Piece>) -> spec_fn(u32) -> bool {
    |id: u32|
        exists|j: int|
            0 <= j < pieces.len() && (#[trigger] pieces[j]).id == id && (pieces[j].loc matches Loc::Hold { room, x, y }
                && rooms.tile_at(room as int, x as int, y as int) == Some(Tile::Stock))
}

/// Whether `id` names a piece standing on a stock tile.
fn names_stock(rooms: &Rooms, pieces: &[Piece], id: u32) -> (r: bool)
    ensures
        r == on_stock(*rooms, pieces@)(id),
{
    let mut j: usize = 0;
    while j < pieces.len()
        invariant
            j <= pieces@.len(),
            forall|q: int|
                0 <= q < j ==> !((#[trigger] pieces@[q]).id == id && (pieces@[q].loc matches Loc::Hold { room, x, y }
                    && rooms.tile_at(room as int, x as int, y as int) == Some(Tile::Stock))),
        decreases pieces@.len() - j,
    {
        let p = pieces[j];
        if p.id == id {
            if let Loc::Hold { room, x, y } = p.loc {
                if rooms.tile(room, x, y) == Some(Tile::Stock) {
                    return true;
                }
            }
        }
        j = j + 1;
    }
    false
}

/// The marks that name a piece standing on a stock tile, in order: a
/// mark on anything else is dropped.
pub fn keep_stock_marks(rooms: &Rooms, pieces: &[Piece], marks: &Vec<u32>) -> (r: Vec<u32>)
    ensures
        r@ == marks@.filter(on_stock(*rooms, pieces@)),
{
    let ghost keep = on_stock(*rooms, pieces@);
    let mut out: Vec<u32> = Vec::new();
    let mut i: usize = 0;
    while i < marks.len()
        invariant
            i <= marks@.len(),
            keep == on_stock(*rooms, pieces@),
            out@ == marks@.take(i as int).filter(keep),
        decreases marks@.len() - i,
    {
        let m = marks[i];
        proof {
            reveal(Seq::filter);
            assert(marks@.take(i + 1).drop_last() =~= marks@.take(i as int));
            assert(marks@.take(i + 1).last() == m);
        }
        if names_stock(rooms, pieces, m) {
            out.push(m);
        }
        i = i + 1;
    }
    proof {
        assert(marks@.take(marks@.len() as int) =~= marks@);
    }
    out
}

// ---------------------------------------------------------------------
// The whole document
// ---------------------------------------------------------------------

/// A laid piece that reads is a covering.
proof fn lemma_read_laid(rooms: Rooms, line: Seq<u8>)
    ensures
        spec_read_piece(rooms, line) is Some && spec_read_piece(rooms, line)->0.loc is Laid ==> spec_read_piece(
            rooms,
            line,
        )->0.kind.spec_covering(),
{
}

/// Two graphs with the same kinds read the same piece lines alike: the
/// same first fault and the same pieces.
proof fn lemma_pieces_alike(a: Rooms, b: Rooms, ls: Seq<Seq<u8>>, i: int)
    requires
        forall|id: int| #[trigger] a.kind_at(id) == b.kind_at(id),
    ensures
        pieces_fault(a, ls, i) == pieces_fault(b, ls, i),
        pieces_read(a, ls, i) == pieces_read(b, ls, i),
    decreases ls.len() - i,
{
    if 0 <= i < ls.len() {
        lemma_piece_reads_alike(a, b, ls[i]);
        lemma_pieces_alike(a, b, ls, i + 1);
    }
}

/// Piece lines that name `ps` and then a `next_piece` line hold no fault,
/// and read as `ps`.
proof fn lemma_pieces_named_read(rooms: Rooms, ls: Seq<Seq<u8>>, at: int, ps: Seq<Piece>, next: u32, j: int)
    requires
        0 <= at,
        pieces_named(rooms, ls, at, ps, next),
        0 <= j <= ps.len(),
    ensures
        pieces_fault(rooms, ls, at + j) is None,
        pieces_read(rooms, ls, at + j) == ps.skip(j),
    decreases ps.len() - j,
{
    if j == ps.len() {
        assert(ps.skip(j) =~= Seq::<Piece>::empty());
    } else {
        assert(spec_read_piece(rooms, ls[at + j]) == Some(ps[j]));
        lemma_pieces_named_read(rooms, ls, at, ps, next, j + 1);
        assert(ps.skip(j) =~= seq![ps[j]] + ps.skip(j + 1));
    }
}

/// Two graphs with the same kinds judge a board alike.
proof fn lemma_stows_alike(a: Rooms, b: Rooms, ps: Seq<Piece>, k: int, seen: Seq<(u32, u8)>, laid: Seq<Piece>)
    requires
        forall|id: int| #[trigger] a.kind_at(id) == b.kind_at(id),
    ensures
        stow_fault_from(a, ps, k, seen, laid) == stow_fault_from(b, ps, k, seen, laid),
    decreases ps.len() - k,
{
    if 0 <= k < ps.len() {
        let p = ps[k];
        match p.loc {
            Loc::Stow { cabinet, slot } => {
                lemma_stows_alike(a, b, ps, k + 1, seen.push((cabinet, slot)), laid);
            },
            Loc::Laid { room, x, y } => {
                assert(a.kind_at(room as int) == b.kind_at(room as int));
                lemma_stows_alike(a, b, ps, k + 1, seen, laid.push(p));
            },
            Loc::Hold { room, x, y } => {
                assert(a.kind_at(room as int) == b.kind_at(room as int));
                lemma_stows_alike(a, b, ps, k + 1, seen, laid);
            },
        }
    }
}

/// Whether the lines of a document after its head name edge list `es`
/// replayed into `rooms`, the marks `marks` as written, the board
/// `pieces` as written, read against that graph and keeping the rules
/// that need the whole board, and the next id `next`.
pub open spec fn body_named(
    ls: Seq<Seq<u8>>,
    es: Seq<RoomEdge>,
    rooms: Rooms,
    marks: Seq<u32>,
    pieces: Seq<Piece>,
    next: u32,
    six: bool,
) -> bool {
    let c = es.len() as int;
    &&& rooms_held(ls, HEAD_LINES as int, es, six)
    &&& rooted(es)
    &&& follows_edges(rooms, es)
    &&& spec_read_marks(ls[HEAD_LINES + 1 + c]) == Some(marks)
    &&& pieces_named(rooms, ls, HEAD_LINES + 2 + c, pieces, next)
    &&& !stows_fault(rooms, pieces)
}

/// Whether `d` and `rooms` are what the lines of a document name: the
/// head fields, the room graph replayed from its edges, the pieces read
/// against that graph on a board that keeps the rules that need the
/// whole board, brought up to this build's rules from the version the
/// header names, and the marks that name pieces then on stock tiles.
#[verifier::opaque]
pub open spec fn read_as(ls: Seq<Seq<u8>>, d: SaveDoc, rooms: Rooms) -> bool {
    let c = d.rooms@.len() as int;
    let raw = pieces_read(rooms, ls, HEAD_LINES + 2 + c);
    let m = spec_read_marks(ls[HEAD_LINES + 1 + c])->0;
    &&& ls.len() >= HEAD_LINES
    &&& head_rest(ls, d)
    &&& body_named(ls, d.rooms@, rooms, m, raw, d.next_piece, six_ported(ls))
    &&& header_version(ls[0]) matches Some(v) && d.pieces@ == migrated(v as int, rooms, raw) && exists|f: Seq<u32>|
        #[trigger] ledger_named(ls, f) && d.familiar@ == ledger_after(v as int, f)
    &&& d.marks@ == m.filter(on_stock(rooms, d.pieces@))
}

/// Read the lines after the head: the room graph, the marks, the board
/// and the next id, checked as a whole. It refuses at the body's first
/// faulty line, and reads whenever the body holds no fault.
fn read_body(text: &[u8], pos: usize, Ghost(ls): Ghost<Seq<Seq<u8>>>, six: bool) -> (r: Result<
    (Vec<RoomEdge>, Rooms, Vec<u32>, Vec<Piece>, u32),
    SaveError,
>)
    requires
        pos <= text@.len(),
        ls == lines(text@),
        HEAD_LINES <= ls.len(),
        lines_from(text@, pos as int) == ls.skip(HEAD_LINES as int),
    ensures
        match r {
            Ok((es, rooms, marks, pieces, next)) => body_named(ls, es@, rooms, marks@, pieces@, next, six)
                && laid_are_coverings(pieces@),
            Err(e) => e is Parse,
        },
        match body_fault(ls) {
            None => r is Ok,
            Some(Fault::At(e)) => r == Err::<(Vec<RoomEdge>, Rooms, Vec<u32>, Vec<Piece>, u32), SaveError>(e),
            Some(Fault::Refused) => true,
        },
{
    let (es, rooms, pos) = match read_rooms(text, pos, Ghost(ls), six) {
        Ok(x) => x,
        Err(e) => return Err(e),
    };
    let c = es.len();
    let ghost g = graph_of(es@);
    proof {
        assert(follows_edges(g, es@));
        lemma_same_kinds(g, rooms, es@);
    }
    let (l, pos) = match step(text, pos, Ghost(ls), Ghost(HEAD_LINES + 1 + c)) {
        Ok(x) => x,
        Err(e) => return Err(e),
    };
    let marks = match read_marks(l) {
        Some(m) => m,
        None => return Err(SaveError::Parse { line: HEAD_LINES + 2 + c }),
    };
    proof {
        lemma_pieces_alike(g, rooms, ls, (HEAD_LINES + 2 + c) as int);
    }
    let (pieces, next_piece, _end) = match read_pieces(text, pos, &rooms, Ghost(ls), HEAD_LINES + 2 + c) {
        Ok(x) => x,
        Err(e) => {
            proof {
                lemma_pieces_fault_parse(rooms, ls, (HEAD_LINES + 2 + c) as int);
            }
            return Err(e);
        },
    };
    proof {
        assert forall|k: int| 0 <= k < pieces@.len() && (#[trigger] pieces@[k]).loc is Laid implies pieces@[
            k
        ].kind.spec_covering() by {
            lemma_read_laid(rooms, ls[HEAD_LINES + 2 + c + k]);
        }
        lemma_pieces_named_read(rooms, ls, (HEAD_LINES + 2 + c) as int, pieces@, next_piece, 0);
        assert(pieces@.skip(0) =~= pieces@);
        lemma_stows_alike(g, rooms, pieces@, 0, Seq::empty(), Seq::empty());
    }
    proof {
        lemma_lines_len(text@, 0);
    }
    let tl = text.len();
    assert(text@.len() <= usize::MAX);
    if validate_stows(&rooms, pieces.as_slice()) {
        return Err(SaveError::Parse { line: HEAD_LINES + 3 + c + pieces.len() });
    }
    Ok((es, rooms, marks, pieces, next_piece))
}

/// A piece fault is a parse fault.
proof fn lemma_pieces_fault_parse(rooms: Rooms, ls: Seq<Seq<u8>>, i: int)
    ensures
        pieces_fault(rooms, ls, i) matches Some(e) ==> e is Parse,
    decreases ls.len() - i,
{
    if 0 <= i < ls.len() && spec_read_piece(rooms, ls[i]) is Some {
        lemma_pieces_fault_parse(rooms, ls, i + 1);
    }
}

/// `d` with its room graph, marks, board and next id replaced.
fn with_body(d: SaveDoc, es: Vec<RoomEdge>, marks: Vec<u32>, pieces: Vec<Piece>, next: u32, Ghost(ls): Ghost<
    Seq<Seq<u8>>,
>) -> (r: SaveDoc)
    requires
        ls.len() >= HEAD_LINES,
        head_named(ls, d),
    ensures
        head_named(ls, r),
        r.rooms@ == es@,
        r.marks@ == marks@,
        r.pieces@ == pieces@,
        r.next_piece == next,
{
    SaveDoc { rooms: es, marks, pieces, next_piece: next, ..d }
}

/// Read a save document, the body checked as it was written and its
/// board then brought up to this build's rules; the marks are kept
/// only where they name a piece on a stock tile.
fn read_doc(text: &[u8]) -> (r: Result<(SaveDoc, Rooms), SaveError>)
    ensures
        ({
            let ls = lines(text@);
            match header_fault(ls) {
                Some(e) => r == Err::<(SaveDoc, Rooms), SaveError>(e),
                None => match head_fault(ls, 1) {
                    Some(e) => r == Err::<(SaveDoc, Rooms), SaveError>(e),
                    None => {
                        &&& match r {
                            Ok((d, rooms)) => read_as(ls, d, rooms),
                            Err(e) => e is Parse,
                        }
                        &&& match body_fault(ls) {
                            None => r is Ok,
                            Some(Fault::At(e)) => r == Err::<(SaveDoc, Rooms), SaveError>(e),
                            Some(Fault::Refused) => true,
                        }
                    },
                },
            }
        }),
{
    let ghost ls = lines(text@);
    let (d, pos) = match read_head(text) {
        Ok(x) => x,
        Err(e) => return Err(e),
    };
    let version = doc_version(text);
    let (es, rooms, marks, pieces, next) = match read_body(text, pos, Ghost(ls), version < 12) {
        Ok(x) => x,
        Err(e) => return Err(e),
    };
    let ghost c = es@.len() as int;
    proof {
        lemma_pieces_named_read(rooms, ls, HEAD_LINES + 2 + c, pieces@, next, 0);
        assert(pieces@.skip(0) =~= pieces@);
    }
    let mut pieces = pieces;
    migrate_board(version, &rooms, &mut pieces);
    let kept = keep_stock_marks(&rooms, pieces.as_slice(), &marks);
    let mut d = with_body(d, es, kept, pieces, next, Ghost(ls));
    let ghost f = d.familiar@;
    if version < 13 {
        widen_familiar(&mut d.familiar);
    }
    proof {
        assert(ledger_named(ls, f));
        reveal(read_as);
    }
    Ok((d, rooms))
}

/// The version the header of a document names, once it has read.
fn doc_version(text: &[u8]) -> (r: u8)
    requires
        header_fault(lines(text@)) is None,
    ensures
        header_version(lines(text@)[0]) == Some(r),
{
    let ghost ls = lines(text@);
    assert(ls.skip(0) =~= ls);
    match take_line(text, 0) {
        Ok((l, next)) => {
            proof {
                lemma_skip_step(ls, 0, l@, lines_from(text@, next as int));
            }
            match version_of_line(l) {
                Some(v) => v,
                None => 16,
            }
        },
        Err(_) => 16,
    }
}

/// Read a save document: the header, the head fields, the room graph
/// replayed edge by edge, the marks, the pieces and the next id, then
/// the rules that need the whole board; marks that do not name a piece
/// on a stock tile are dropped. A document of one of the five versions
/// before this build's has its board and ledger brought up to this
/// build's rules, every piece kept; one from before `STV12` has a room
/// whose recorded mate the graph refuses re-seated through the spawn
/// walk instead of refused. The document and the graph it describes, or why it
/// was refused: a header naming no version this build reads is an
/// unsupported version, and a faulty body is refused at its first
/// faulty line (line 0 where the text ends too soon). A body with no
/// fault reads; so does every document this build writes whose room
/// edges each replay onto the graph before them, and it reads back as
/// itself.
pub fn read_save(text: &[u8]) -> (r: Result<(SaveDoc, Rooms), SaveError>)
    ensures
        ({
            let ls = lines(text@);
            match header_fault(ls) {
                Some(e) => r == Err::<(SaveDoc, Rooms), SaveError>(e),
                None => match head_fault(ls, 1) {
                    Some(e) => r == Err::<(SaveDoc, Rooms), SaveError>(e),
                    None => {
                        &&& match r {
                            Ok((d, rooms)) => read_as(ls, d, rooms),
                            Err(e) => e is Parse,
                        }
                        &&& match body_fault(ls) {
                            None => r is Ok,
                            Some(Fault::At(e)) => r == Err::<(SaveDoc, Rooms), SaveError>(e),
                            Some(Fault::Refused) => true,
                        }
                    },
                },
            }
        }),
        forall|d: SaveDoc, rooms: Rooms|
            #[trigger] doc_ok(d, rooms) && edges_replay(d.rooms@) && lines(text@) == doc_lines(d) ==> (r matches Ok(
                (d2, _),
            ) && same_doc(d2, d)),
{
    let r = read_doc(text);
    proof {
        let ls = lines(text@);
        assert forall|d: SaveDoc, rooms: Rooms|
            #[trigger] doc_ok(d, rooms) && edges_replay(d.rooms@) && lines(text@) == doc_lines(d) implies (r matches Ok(
                (d2, _),
            ) && same_doc(d2, d)) by {
            lemma_written_reads(d, rooms);
            lemma_save_round_trip(d, rooms);
            let (d2, rooms2) = r->Ok_0;
            lemma_read_as_unique(ls, d2, rooms2, d, rooms);
        }
    }
    r
}

// ---------------------------------------------------------------------
// What is written reads back
// ---------------------------------------------------------------------

/// Whether a document can be read back as written: every field within
/// what its line admits, a rooted edge list that `rooms` follows, marks
/// kept each once in ascending order and each naming a piece on a stock
/// tile, every berth readable, and a board that keeps the rules that
/// need the whole board.
pub open spec fn doc_ok(d: SaveDoc, rooms: Rooms) -> bool {
    &&& d.familiar@.len() == POI_COUNT
    &&& d.visits@.len() == POI_COUNT
    &&& ship_ok(d.ship, d.selected)
    &&& d.encounter matches Some(e) ==> e.start < e.end
    &&& d.drone matches Some(dr) ==> dr.start < dr.end && dr.swats <= AD_SWATS
    &&& d.rat matches Some(r) ==> r.cell.0 < cabin_grid().0 && r.cell.1 < cabin_grid().1 && r.prev_cell.0
        < cabin_grid().0 && r.prev_cell.1 < cabin_grid().1 && r.chases < CHASE_LIMIT
    &&& d.rooms@.len() <= MAX_ROOMS
    &&& rooted(d.rooms@)
    &&& forall|j: int| 0 <= j < d.rooms@.len() ==> edge_ok(#[trigger] d.rooms@[j])
    &&& follows_edges(rooms, d.rooms@)
    &&& strictly_ascending(d.marks@)
    &&& d.marks@.len() <= MARKS_CAP
    &&& forall|j: int| 0 <= j < d.marks@.len() ==> on_stock(rooms, d.pieces@)(#[trigger] d.marks@[j])
    &&& forall|j: int| 0 <= j < d.pieces@.len() ==> berth_readable(rooms, #[trigger] d.pieces@[j])
    &&& !stows_fault(rooms, d.pieces@)
}

/// Line `j` of a written document, read without its line feed, has the
/// words of its text.
proof fn lemma_doc_words(d: SaveDoc, j: int)
    requires
        0 <= j < doc_texts(d).len(),
    ensures
        words(doc_lines(d)[j]) == words(doc_texts(d)[j]),
{
    crate::sim::save::doc::lemma_texts_one(d, j);
    lemma_words_of_line(doc_texts(d)[j]);
}

/// A filter that keeps every entry keeps the list.
proof fn lemma_filter_all(s: Seq<u32>, f: spec_fn(u32) -> bool)
    requires
        forall|j: int| 0 <= j < s.len() ==> f(#[trigger] s[j]),
    ensures
        s.filter(f) == s,
    decreases s.len(),
{
    reveal(Seq::filter);
    if s.len() > 0 {
        lemma_filter_all(s.drop_last(), f);
        assert(f(s[s.len() - 1]));
        assert(s.drop_last().push(s.last()) =~= s);
    } else {
        assert(s.filter(f) =~= s);
    }
}

/// **A written document's head reads back as its fields**: the header
/// is this build's, no head line faults, and each names its field.
pub proof fn lemma_head_round_trip(d: SaveDoc, rooms: Rooms)
    requires
        doc_ok(d, rooms),
    ensures
        header_fault(doc_lines(d)) is None,
        head_fault(doc_lines(d), 1) is None,
        head_named(doc_lines(d), d),
        doc_lines(d)[0] == magic(),
        header_version(doc_lines(d)[0]) == Some(16u8),
{
    let ls = doc_lines(d);
    let ts = doc_texts(d);
    lemma_doc_texts(d);
    assert(ls.len() == ts.len());
    assert forall|j: int| 0 <= j < HEAD_LINES implies words(#[trigger] ls[j]) == words(ts[j]) by {
        lemma_doc_words(d, j);
    }
    assert(ls[0] == magic()) by {
        assert(ts[0] == magic() + seq![10u8]);
        assert((magic() + seq![10u8]).drop_last() =~= magic());
    }
    lemma_own_header();
    assert(words(ls[1]) == words(ts[1]));
    lemma_kv_line_round_trip(Key::Seed, d.seed as nat, u64::MAX as nat);
    lemma_kv_line_round_trip(Key::Tick, d.tick as nat, u64::MAX as nat);
    lemma_hex_kv_line_round_trip(Key::Rng, d.rng as nat, 16, u64::MAX as nat);
    lemma_kv_line_round_trip(Key::Warp, flag_num(d.warp), 255);
    lemma_kv_line_round_trip(Key::Paused, flag_num(d.paused), 255);
    lemma_kv_line_round_trip(Key::Deliveries, d.deliveries as nat, u32::MAX as nat);
    lemma_kv_line_round_trip(Key::Karma, d.karma as nat, u32::MAX as nat);
    lemma_list_line_round_trip(Key::Familiar, id_nats(d.familiar@), true, 4, u32::MAX as nat);
    lemma_list_line_round_trip(Key::Visits, id_nats(d.visits@), false, 0, u32::MAX as nat);
    lemma_ship_line_round_trip(d.ship, d.selected, d.stoke);
    lemma_kv_line_round_trip(Key::Legs, d.legs as nat, u64::MAX as nat);
    lemma_omen_line_round_trip(d.jump_at, d.phase, d.light, d.swell);
    lemma_enc_line_round_trip(d.encounter);
    lemma_drone_line_round_trip(d.drone);
    lemma_parade_line_round_trip(d.parade_at, d.comet_visit);
    lemma_rat_line_round_trip(d.rat);
    assert(head_fault(ls, 1) is None) by {
        assert forall|j: int| 1 <= j < HEAD_LINES implies #[trigger] head_line_ok(j, ls[j]) by {}
        lemma_fault_from(ls, HEAD_LINES as int);
    }
}

/// A written document's room lines read back as its edges.
proof fn lemma_rooms_read_back(d: SaveDoc, rooms: Rooms)
    requires
        doc_ok(d, rooms),
    ensures
        rooms_named(doc_lines(d), HEAD_LINES as int, d.rooms@),
{
    let ls = doc_lines(d);
    let ts = doc_texts(d);
    lemma_doc_texts(d);
    let c = d.rooms@.len() as int;
    lemma_doc_words(d, HEAD_LINES as int);
    lemma_kv_line_round_trip(Key::Rooms, c as nat, MAX_ROOMS as nat);
    assert forall|j: int| 0 <= j < c implies spec_read_room(#[trigger] ls[HEAD_LINES + 1 + j]) == Some(
        d.rooms@[j],
    ) by {
        lemma_doc_words(d, HEAD_LINES + 1 + j);
        assert(ts[18 + j] == room_text(d.rooms@[j]));
        lemma_room_line_round_trip(d.rooms@[j]);
    }
}

/// A written document's marks line reads back as its marks, each of
/// which names a piece on a stock tile.
proof fn lemma_marks_read_back(d: SaveDoc, rooms: Rooms)
    requires
        doc_ok(d, rooms),
    ensures
        spec_read_marks(doc_lines(d)[HEAD_LINES + 1 + d.rooms@.len()]) == Some(d.marks@),
        d.marks@.filter(on_stock(rooms, d.pieces@)) == d.marks@,
{
    let ts = doc_texts(d);
    lemma_doc_texts(d);
    let c = d.rooms@.len() as int;
    lemma_doc_words(d, HEAD_LINES + 1 + c);
    assert(ts[18 + c] == marks_text(d.marks@));
    lemma_marks_line_round_trip(d.marks@);
    lemma_filter_all(d.marks@, on_stock(rooms, d.pieces@));
}

/// A written document's piece lines read back as its board, ended by
/// its next id.
proof fn lemma_pieces_read_back(d: SaveDoc, rooms: Rooms)
    requires
        doc_ok(d, rooms),
    ensures
        pieces_named(rooms, doc_lines(d), HEAD_LINES + 2 + d.rooms@.len(), d.pieces@, d.next_piece),
{
    let ls = doc_lines(d);
    let ts = doc_texts(d);
    lemma_doc_texts(d);
    let c = d.rooms@.len() as int;
    let np = d.pieces@.len() as int;
    let at = HEAD_LINES + 2 + c;
    assert forall|j: int| 0 <= j < np implies spec_read_piece(rooms, #[trigger] ls[at + j]) == Some(d.pieces@[j]) by {
        lemma_doc_words(d, at + j);
        assert(ts[19 + c + j] == piece_text(d.pieces@[j]));
        lemma_piece_line_round_trip(rooms, d.pieces@[j]);
    }
    lemma_doc_words(d, at + np);
    assert(ts[19 + c + np] == kv_text(Key::NextPiece, d.next_piece as nat));
    lemma_kv_line_round_trip(Key::NextPiece, d.next_piece as nat, u32::MAX as nat);
    assert(spec_read_piece(rooms, ls[at + np]) is None) by {
        lemma_key_bytes(Key::NextPiece);
        let ws = seq![key_bytes(Key::NextPiece), dec_bytes(d.next_piece as nat)];
        crate::sim::save::lines::lemma_dec_word(d.next_piece as nat);
        assert(good_words(ws));
        lemma_line_words(ws);
        assert(words(ls[at + np])[0] == key_bytes(Key::NextPiece));
        assert(key_bytes(Key::NextPiece).len() != w_piece().len());
    }
}

/// **A written document reads back as itself**: its lines name exactly
/// its fields, the graph `rooms` it was written from, its marks and its
/// board.
pub proof fn lemma_save_round_trip(d: SaveDoc, rooms: Rooms)
    requires
        doc_ok(d, rooms),
    ensures
        lines(save_text(d)) == doc_lines(d),
        header_fault(doc_lines(d)) is None,
        head_fault(doc_lines(d), 1) is None,
        header_version(doc_lines(d)[0]) == Some(16u8),
        read_as(doc_lines(d), d, rooms),
{
    lemma_save_lines(d);
    lemma_head_round_trip(d, rooms);
    lemma_rooms_read_back(d, rooms);
    lemma_marks_read_back(d, rooms);
    lemma_pieces_read_back(d, rooms);
    lemma_doc_texts(d);
    let ls = doc_lines(d);
    let at = HEAD_LINES + 2 + d.rooms@.len();
    lemma_pieces_named_read(rooms, ls, at, d.pieces@, d.next_piece, 0);
    assert(d.pieces@.skip(0) =~= d.pieces@);
    lemma_current_unmigrated(rooms, d.pieces@);
    lemma_own_header();
    assert(ledger_named(ls, d.familiar@));
    reveal(read_as);
}

/// The room lines of a written document whose edges replay hold no
/// fault from room `k` on.
proof fn lemma_rooms_clear(d: SaveDoc, rooms: Rooms, k: int)
    requires
        doc_ok(d, rooms),
        edges_replay(d.rooms@),
        rooms_named(doc_lines(d), HEAD_LINES as int, d.rooms@),
        0 <= k <= d.rooms@.len(),
    ensures
        rooms_fault(doc_lines(d), d.rooms@.len() as int, k) is None,
    decreases d.rooms@.len() - k,
{
    let ls = doc_lines(d);
    let es = d.rooms@;
    let c = es.len() as int;
    if k < c {
        lemma_rooms_clear(d, rooms, k + 1);
        assert(spec_read_room(ls[HEAD_LINES + 1 + k]) == Some(es[k]));
        if k > 0 {
            assert(es[k].anchor is Some);
            let pre = edges_of_lines(ls, k + 1);
            assert(pre =~= es.take(k + 1)) by {
                assert forall|j: int| 0 <= j < k + 1 implies pre[j] == es.take(k + 1)[j] by {
                    assert(spec_read_room(ls[HEAD_LINES + 1 + j]) == Some(es[j]));
                }
            }
            assert(pre.take(k) =~= es.take(k));
            assert(edge_accepted(es, k));
            assert(edge_accepted(pre, k)) by {
                assert forall|g: Rooms| #[trigger] follows_edges(g, pre.take(k)) implies {
                    &&& !g.present(pre[k].id as int)
                    &&& pre[k].anchor matches Some(m) && g.spec_validate(m.0 as int, m.1 as int, pre[k].kind, m.2 as int) is Ok
                } by {
                    assert(follows_edges(g, es.take(k)));
                }
            }
        }
    }
}

/// **A written document whose room edges each replay reads with no
/// fault**: its header and head lines pass, its body holds no fault, and
/// its lines name it.
/// The body of a written document whose room edges each replay holds
/// no fault.
proof fn lemma_body_clear(d: SaveDoc, rooms: Rooms)
    requires
        doc_ok(d, rooms),
        edges_replay(d.rooms@),
        rooms_named(doc_lines(d), HEAD_LINES as int, d.rooms@),
        spec_read_marks(doc_lines(d)[HEAD_LINES + 1 + d.rooms@.len()]) == Some(d.marks@),
        pieces_named(rooms, doc_lines(d), HEAD_LINES + 2 + d.rooms@.len(), d.pieces@, d.next_piece),
    ensures
        body_fault(doc_lines(d)) is None,
{
    let ls = doc_lines(d);
    let es = d.rooms@;
    let c = es.len() as int;
    assert(rooms_block_fault(ls) is None) by {
        lemma_rooms_clear(d, rooms, 0);
    }
    assert(edges_of_lines(ls, c) =~= es) by {
        assert forall|j: int| 0 <= j < c implies edges_of_lines(ls, c)[j] == es[j] by {
            assert(spec_read_room(ls[HEAD_LINES + 1 + j]) == Some(es[j]));
        }
    }
    let g = graph_of(es);
    assert(follows_edges(g, es));
    lemma_same_kinds(g, rooms, es);
    let at = HEAD_LINES + 2 + c;
    lemma_pieces_alike(g, rooms, ls, at);
    lemma_pieces_named_read(rooms, ls, at, d.pieces@, d.next_piece, 0);
    assert(d.pieces@.skip(0) =~= d.pieces@);
    lemma_stows_alike(g, rooms, d.pieces@, 0, Seq::empty(), Seq::empty());
}

/// **A written document whose room edges each replay reads with no
/// fault**: its header and head lines pass, its body holds no fault, and
/// its lines name it.
pub proof fn lemma_written_reads(d: SaveDoc, rooms: Rooms)
    requires
        doc_ok(d, rooms),
        edges_replay(d.rooms@),
    ensures
        header_fault(doc_lines(d)) is None,
        head_fault(doc_lines(d), 1) is None,
        body_fault(doc_lines(d)) is None,
        header_version(doc_lines(d)[0]) == Some(16u8),
        read_as(doc_lines(d), d, rooms),
{
    lemma_save_round_trip(d, rooms);
    lemma_rooms_read_back(d, rooms);
    lemma_marks_read_back(d, rooms);
    lemma_pieces_read_back(d, rooms);
    lemma_body_clear(d, rooms);
}

/// Whether two documents hold the same fields.
pub open spec fn same_doc(a: SaveDoc, b: SaveDoc) -> bool {
    &&& a.seed == b.seed
    &&& a.tick == b.tick
    &&& a.rng == b.rng
    &&& a.warp == b.warp
    &&& a.paused == b.paused
    &&& a.deliveries == b.deliveries
    &&& a.karma == b.karma
    &&& a.familiar@ == b.familiar@
    &&& a.visits@ == b.visits@
    &&& a.ship == b.ship
    &&& a.selected == b.selected
    &&& a.stoke == b.stoke
    &&& a.legs == b.legs
    &&& a.jump_at == b.jump_at
    &&& a.phase == b.phase
    &&& a.light == b.light
    &&& a.swell == b.swell
    &&& a.encounter == b.encounter
    &&& a.drone == b.drone
    &&& a.parade_at == b.parade_at
    &&& a.comet_visit == b.comet_visit
    &&& a.rat == b.rat
    &&& a.rooms@ == b.rooms@
    &&& a.marks@ == b.marks@
    &&& a.pieces@ == b.pieces@
    &&& a.next_piece == b.next_piece
}

/// Two graphs that follow one edge list hold the same kind of room in
/// every slot.
proof fn lemma_same_kinds(a: Rooms, b: Rooms, es: Seq<RoomEdge>)
    requires
        follows_edges(a, es),
        follows_edges(b, es),
    ensures
        forall|id: int| #[trigger] a.kind_at(id) == b.kind_at(id),
{
    assert forall|id: int| #[trigger] a.kind_at(id) == b.kind_at(id) by {
        let ids = es.map_values(|e: RoomEdge| e.id);
        if a.present(id) {
            a.lemma_present_in_order(id);
            let i = choose|i: int| 0 <= i < ids.len() && ids[i] == id as u8;
            assert(es[i].id == id as u8);
        } else if b.present(id) {
            b.lemma_present_in_order(id);
            let i = choose|i: int| 0 <= i < ids.len() && ids[i] == id as u8;
            assert(es[i].id == id as u8);
        }
    }
}

/// A piece line reads the same against two graphs with the same kinds.
proof fn lemma_piece_reads_alike(a: Rooms, b: Rooms, line: Seq<u8>)
    requires
        forall|id: int| #[trigger] a.kind_at(id) == b.kind_at(id),
    ensures
        spec_read_piece(a, line) == spec_read_piece(b, line),
{
}

/// **What lines name is one document**: two readings of the same lines
/// of a document from `STV12` on give the same fields. (Before `STV12`
/// a room the graph refuses is re-seated, and where the walk puts it
/// turns on the graph's geometry, which the lines do not name.)
pub proof fn lemma_read_as_unique(ls: Seq<Seq<u8>>, d1: SaveDoc, r1: Rooms, d2: SaveDoc, r2: Rooms)
    requires
        read_as(ls, d1, r1),
        read_as(ls, d2, r2),
        !six_ported(ls),
    ensures
        same_doc(d1, d2),
{
    reveal(read_as);
    // The head.
    let v = header_version(ls[0])->0 as int;
    let f1 = choose|f: Seq<u32>| #[trigger] ledger_named(ls, f) && d1.familiar@ == ledger_after(v, f);
    let f2 = choose|f: Seq<u32>| #[trigger] ledger_named(ls, f) && d2.familiar@ == ledger_after(v, f);
    assert(f1 =~= f2) by {
        assert(f1.len() == id_nats(f1).len());
        assert(f2.len() == id_nats(f2).len());
        assert forall|j: int| 0 <= j < f1.len() implies f1[j] == f2[j] by {
            assert(id_nats(f1)[j] == id_nats(f2)[j]);
        }
    }
    assert(d1.familiar@ =~= d2.familiar@);
    assert(d1.visits@ =~= d2.visits@) by {
        assert(d1.visits@.len() == id_nats(d1.visits@).len());
        assert forall|j: int| 0 <= j < d1.visits@.len() implies d1.visits@[j] == d2.visits@[j] by {
            assert(id_nats(d1.visits@)[j] == id_nats(d2.visits@)[j]);
        }
    }
    // The room graph.
    assert(d1.rooms@.len() == d2.rooms@.len());
    assert(d1.rooms@ =~= d2.rooms@) by {
        assert forall|j: int| 0 <= j < d1.rooms@.len() implies d1.rooms@[j] == d2.rooms@[j] by {
            assert(spec_read_room(ls[HEAD_LINES + 1 + j]) == Some(d1.rooms@[j]));
            assert(spec_read_room(ls[HEAD_LINES + 1 + j]) == Some(d2.rooms@[j]));
        }
    }
    lemma_same_kinds(r1, r2, d1.rooms@);
    // The board.
    let c = d1.rooms@.len() as int;
    let at = HEAD_LINES + 2 + c;
    lemma_pieces_alike(r1, r2, ls, at);
    let raw = pieces_read(r1, ls, at);
    lemma_migrated_alike(header_version(ls[0])->0 as int, r1, r2, raw);
    assert(d1.pieces@ == d2.pieces@);
    // The marks.
    assert(on_stock(r1, d1.pieces@) =~= on_stock(r2, d2.pieces@));
}

/// **A document written and read back is the document**: whatever a
/// successful read of a written document gives is that document, field
/// for field.
pub proof fn lemma_save_reads_back(d: SaveDoc, rooms: Rooms, d2: SaveDoc, rooms2: Rooms)
    requires
        doc_ok(d, rooms),
        read_as(lines(save_text(d)), d2, rooms2),
    ensures
        same_doc(d2, d),
{
    lemma_save_round_trip(d, rooms);
    lemma_read_as_unique(lines(save_text(d)), d2, rooms2, d, rooms);
}


// ---------------------------------------------------------------------
// What is cut short never reads
// ---------------------------------------------------------------------

/// Head lines that pass pass in any prefix that holds them, and the
/// prefix runs out at its end.
proof fn lemma_head_prefix(ls: Seq<Seq<u8>>, t: Seq<Seq<u8>>, i: int)
    requires
        1 <= i <= HEAD_LINES,
        head_fault(ls, i) is None,
        ls.len() >= HEAD_LINES,
        t.len() <= ls.len(),
        forall|j: int| 0 <= j < t.len() ==> #[trigger] t[j] == ls[j],
    ensures
        head_fault(t, i) == if i < HEAD_LINES && t.len() < HEAD_LINES {
            Some(SaveError::Parse { line: 0 })
        } else {
            None
        },
    decreases HEAD_LINES - i,
{
    if i < HEAD_LINES {
        if t.len() > i {
            assert(t[i] == ls[i]);
            lemma_head_prefix(ls, t, i + 1);
        }
    }
}

/// Room lines that hold no fault hold none in a prefix that holds them
/// all, and run out in a prefix that cuts them.
proof fn lemma_rooms_prefix(ls: Seq<Seq<u8>>, t: Seq<Seq<u8>>, c: int, k: int)
    requires
        0 <= k <= c,
        rooms_fault(ls, c, k) is None,
        t.len() <= ls.len(),
        forall|j: int| 0 <= j < t.len() ==> #[trigger] t[j] == ls[j],
    ensures
        rooms_fault(t, c, k) == if t.len() <= HEAD_LINES + c {
            if k < c { Some(Fault::At(SaveError::Parse { line: 0 })) } else { None::<Fault> }
        } else {
            None::<Fault>
        },
    decreases c - k,
{
    if k < c {
        if t.len() <= HEAD_LINES + 1 + k {
        } else {
            assert(t[HEAD_LINES + 1 + k] == ls[HEAD_LINES + 1 + k]);
            assert(edges_of_lines(t, k + 1) =~= edges_of_lines(ls, k + 1)) by {
                assert forall|j: int| 0 <= j < k + 1 implies #[trigger] edges_of_lines(t, k + 1)[j] == edges_of_lines(ls, k + 1)[j] by {
                    assert(t[HEAD_LINES + 1 + j] == ls[HEAD_LINES + 1 + j]);
                }
            }
            lemma_rooms_prefix(ls, t, c, k + 1);
        }
    }
}

/// Piece lines that each read, cut before the line that ends them, run
/// out.
proof fn lemma_pieces_prefix(g: Rooms, ls: Seq<Seq<u8>>, t: Seq<Seq<u8>>, at: int, n: int, i: int)
    requires
        0 <= at <= i <= t.len(),
        t.len() <= at + n,
        at + n < ls.len(),
        forall|j: int| at <= j < at + n ==> #[trigger] spec_read_piece(g, ls[j]) is Some,
        forall|j: int| 0 <= j < t.len() ==> #[trigger] t[j] == ls[j],
    ensures
        pieces_fault(g, t, i) == Some(SaveError::Parse { line: 0 }),
    decreases t.len() - i,
{
    if i < t.len() {
        assert(t[i] == ls[i]);
        assert(spec_read_piece(g, ls[i]) is Some);
        lemma_pieces_prefix(g, ls, t, at, n, i + 1);
    }
}

/// **A written document cut short never reads**: keep any number of its
/// lines but all, and its header reads, then the text ends before the
/// document does: the reader refuses it with line 0, the line of a text
/// that ended too early.
pub proof fn lemma_cut_short(d: SaveDoc, rooms: Rooms, k: int)
    requires
        doc_ok(d, rooms),
        edges_replay(d.rooms@),
        1 <= k < doc_lines(d).len(),
    ensures
        header_fault(doc_lines(d).take(k)) is None,
        head_fault(doc_lines(d).take(k), 1) == Some(SaveError::Parse { line: 0 }) || (head_fault(
            doc_lines(d).take(k),
            1,
        ) is None && body_fault(doc_lines(d).take(k)) == Some(Fault::At(SaveError::Parse { line: 0 }))),
{
    let ls = doc_lines(d);
    let t = ls.take(k);
    lemma_written_reads(d, rooms);
    lemma_doc_texts(d);
    lemma_rooms_read_back(d, rooms);
    lemma_pieces_read_back(d, rooms);
    lemma_marks_read_back(d, rooms);
    assert(forall|j: int| 0 <= j < t.len() ==> #[trigger] t[j] == ls[j]);
    assert(t[0] == ls[0]);
    lemma_head_prefix(ls, t, 1);
    if k >= HEAD_LINES {
        let es = d.rooms@;
        let c = es.len() as int;
        if k > HEAD_LINES {
            assert(t[HEAD_LINES as int] == ls[HEAD_LINES as int]);
            lemma_rooms_prefix(ls, t, c, 0);
            if k > HEAD_LINES + 1 + c {
                assert(t[HEAD_LINES + 1 + c] == ls[HEAD_LINES + 1 + c]);
                assert(edges_of_lines(t, c) =~= edges_of_lines(ls, c)) by {
                    assert forall|j: int| 0 <= j < c implies #[trigger] edges_of_lines(t, c)[j] == edges_of_lines(ls, c)[j] by {
                        assert(t[HEAD_LINES + 1 + j] == ls[HEAD_LINES + 1 + j]);
                    }
                }
                assert(edges_of_lines(ls, c) =~= es) by {
                    assert forall|j: int| 0 <= j < c implies edges_of_lines(ls, c)[j] == es[j] by {
                        assert(spec_read_room(ls[HEAD_LINES + 1 + j]) == Some(es[j]));
                    }
                }
                let g = graph_of(es);
                assert(follows_edges(g, es));
                lemma_same_kinds(g, rooms, es);
                let at = HEAD_LINES + 2 + c;
                let np = d.pieces@.len() as int;
                assert forall|j: int| at <= j < at + np implies #[trigger] spec_read_piece(g, ls[j]) is Some by {
                    lemma_piece_reads_alike(g, rooms, ls[j]);
                    assert(spec_read_piece(rooms, ls[at + (j - at)]) == Some(d.pieces@[j - at]));
                }
                lemma_pieces_prefix(g, ls, t, at, np, at);
            }
        }
    }
}

} // verus!
