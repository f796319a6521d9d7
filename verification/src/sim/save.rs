//! The save grammar: its refusals, and the piece line.
//!
//! A save is line-oriented text. A piece line names a piece and its
//! berth in words separated by whitespace:
//!
//! ```text
//! piece <id> <kind column> <variant> <gnawed 0|1> hold <room> <x> <y>
//! piece <id> <kind column> <variant> <gnawed 0|1> laid <room> <x> <y>
//! piece <id> <kind column> <variant> <gnawed 0|1> stow <cabinet id> <slot>
//! ```
//!
//! Reading is bounds-checked so later indexing never goes astray: a
//! berth's footprint must lie inside its room's net grid, a laid berth
//! must hold a dressing, and a cubby must exist. Words after the berth
//! are ignored. Reading what was written gives back the piece.

pub mod doc;
pub mod migrate;
pub mod lines;
pub mod read;

use vstd::prelude::*;
use vstd::string::StringExecFns;
use crate::sim::cargo::{CABINET_SLOTS, Kind, Loc, Piece};
use crate::sim::encounter::{AD_SWATS, Drone, Encounter, EncounterKind};
use crate::sim::rats::{CHASE_LIMIT, Rat};
use crate::sim::room::{RoomKind, Rooms};
use crate::text::{
    is_space, lemma_word_then_one, one_line,
    dec_bytes, dec_words, decimal, lemma_dec_bytes, lemma_dec_spaceless, lemma_numbers_words,
    lemma_words_last, lemma_words_lead, next_word, numbers_text, push_dec, push_decimal, read_words,
    spaceless, spans_match, word_is, word_u64, word_value, words, words_from, write_numbers,
};

verus! {

/// Why a save string was refused.
#[derive(Clone, Copy, Debug, PartialEq, Eq, Structural)]
pub enum SaveError {
    /// Not a Space Trucking save at all.
    BadMagic,
    /// A Space Trucking save from a version this build does not read.
    UnsupportedVersion,
    /// Recognised header, malformed body; `line` is 1-based (0 = truncated).
    Parse { line: usize },
}

impl SaveError {
    /// What the refusal says to a person.
    pub open spec fn message(self) -> Seq<char> {
        match self {
            SaveError::BadMagic => "not a Space Trucking save"@,
            SaveError::UnsupportedVersion => "save is from an unsupported version"@,
            SaveError::Parse { line } => if line == 0 {
                "save ends too early"@
            } else {
                "malformed save at line "@ + decimal(line as nat)
            },
        }
    }

    /// The refusal as text.
    pub fn to_string(&self) -> (r: String)
        ensures
            r@ == self.message(),
    {
        match self {
            SaveError::BadMagic => String::from_str("not a Space Trucking save"),
            SaveError::UnsupportedVersion => String::from_str("save is from an unsupported version"),
            SaveError::Parse { line } => {
                if *line == 0 {
                    String::from_str("save ends too early")
                } else {
                    let mut s = String::from_str("malformed save at line ");
                    push_decimal(&mut s, *line);
                    s
                }
            },
        }
    }
}

/// `piece`
pub open spec fn w_piece() -> Seq<u8> {
    seq![112u8, 105u8, 101u8, 99u8, 101u8]
}

/// `hold`
pub open spec fn w_hold() -> Seq<u8> {
    seq![104u8, 111u8, 108u8, 100u8]
}

/// `laid`
pub open spec fn w_laid() -> Seq<u8> {
    seq![108u8, 97u8, 105u8, 100u8]
}

/// `stow`
pub open spec fn w_stow() -> Seq<u8> {
    seq![115u8, 116u8, 111u8, 119u8]
}

/// The number word `t` names, if it names one no larger than `max`.
pub open spec fn word_upto(t: Seq<u8>, max: nat) -> Option<nat> {
    match word_value(t) {
        Some(v) => if v <= max {
            Some(v)
        } else {
            None
        },
        None => None,
    }
}

/// Whether a piece of `kind` anchored at `(x, y)` of `room` lies inside
/// the room's net grid.
pub open spec fn cell_fits(rooms: Rooms, kind: Kind, room: int, x: int, y: int) -> bool {
    &&& rooms.kind_at(room) matches Some(host)
    &&& x + kind.spec_extent().0 <= host.spec_grid().0
    &&& y + kind.spec_extent().2 <= host.spec_grid().1
}

/// The berth words `ws` name for a piece of `kind`, if they name one.
pub open spec fn berth_words(rooms: Rooms, kind: Kind, ws: Seq<Seq<u8>>) -> Option<Loc> {
    if ws.len() == 0 {
        None
    } else if ws[0] == w_hold() || ws[0] == w_laid() {
        if ws.len() < 4 {
            None
        } else {
            match (word_upto(ws[1], 255), word_upto(ws[2], 255), word_upto(ws[3], 255)) {
                (Some(room), Some(x), Some(y)) => if !cell_fits(rooms, kind, room as int, x as int, y as int) {
                    None
                } else if ws[0] == w_hold() {
                    Some(Loc::Hold { room: room as u8, x: x as u8, y: y as u8 })
                } else if kind.spec_covering() {
                    Some(Loc::Laid { room: room as u8, x: x as u8, y: y as u8 })
                } else {
                    None
                },
                _ => None,
            }
        }
    } else if ws[0] == w_stow() {
        if ws.len() < 3 {
            None
        } else {
            match (word_upto(ws[1], u32::MAX as nat), word_upto(ws[2], 255)) {
                (Some(cabinet), Some(slot)) => if slot < CABINET_SLOTS {
                    Some(Loc::Stow { cabinet: cabinet as u32, slot: slot as u8 })
                } else {
                    None
                },
                _ => None,
            }
        }
    } else {
        None
    }
}

/// The gnaw mark word `t` names: `0` or `1`.
pub open spec fn gnaw_word(t: Seq<u8>) -> Option<bool> {
    if t == seq![48u8] {
        Some(false)
    } else if t == seq![49u8] {
        Some(true)
    } else {
        None
    }
}

/// The piece a piece line names, if it names one.
pub open spec fn spec_read_piece(rooms: Rooms, line: Seq<u8>) -> Option<Piece> {
    let ws = words(line);
    if ws.len() < 5 || ws[0] != w_piece() {
        None
    } else {
        match (word_upto(ws[1], u32::MAX as nat), word_value(ws[2]), word_upto(ws[3], 255), gnaw_word(ws[4])) {
            (Some(id), Some(column), Some(variant), Some(gnawed)) => match Kind::spec_from_index(column as int) {
                Some(kind) => match berth_words(rooms, kind, ws.skip(5)) {
                    Some(loc) => Some(Piece { id: id as u32, kind, variant: variant as u8, gnawed, loc }),
                    None => None,
                },
                None => None,
            },
            _ => None,
        }
    }
}

/// Word `w`, then a space, then `rest`.
pub open spec fn then(w: Seq<u8>, rest: Seq<u8>) -> Seq<u8> {
    w + seq![32u8] + rest
}

/// The berth words of `loc`, ended by a line feed.
pub open spec fn berth_text(loc: Loc) -> Seq<u8> {
    match loc {
        Loc::Hold { room, x, y } => then(
            w_hold(),
            then(dec_bytes(room as nat), then(dec_bytes(x as nat), dec_bytes(y as nat) + seq![10u8])),
        ),
        Loc::Laid { room, x, y } => then(
            w_laid(),
            then(dec_bytes(room as nat), then(dec_bytes(x as nat), dec_bytes(y as nat) + seq![10u8])),
        ),
        Loc::Stow { cabinet, slot } => then(
            w_stow(),
            then(dec_bytes(cabinet as nat), dec_bytes(slot as nat) + seq![10u8]),
        ),
    }
}

/// The line a piece is saved as.
pub open spec fn piece_text(p: Piece) -> Seq<u8> {
    then(
        w_piece(),
        then(
            dec_bytes(p.id as nat),
            then(
                dec_bytes(p.kind.spec_index() as nat),
                then(
                    dec_bytes(p.variant as nat),
                    then(
                        if p.gnawed {
                            seq![49u8]
                        } else {
                            seq![48u8]
                        },
                        berth_text(p.loc),
                    ),
                ),
            ),
        ),
    )
}

/// Whether a piece's berth reads back: a footprint inside its room's
/// grid, a dressing for a laid berth, a real cubby for a stowed one.
pub open spec fn berth_readable(rooms: Rooms, p: Piece) -> bool {
    match p.loc {
        Loc::Hold { room, x, y } => cell_fits(rooms, p.kind, room as int, x as int, y as int),
        Loc::Laid { room, x, y } => cell_fits(rooms, p.kind, room as int, x as int, y as int)
            && p.kind.spec_covering(),
        Loc::Stow { slot, .. } => slot < CABINET_SLOTS,
    }
}

/// The words of a berth's text.
proof fn lemma_berth_words(loc: Loc)
    ensures
        words(berth_text(loc)) == match loc {
            Loc::Hold { room, x, y } => seq![w_hold(), dec_bytes(room as nat), dec_bytes(x as nat), dec_bytes(y as nat)],
            Loc::Laid { room, x, y } => seq![w_laid(), dec_bytes(room as nat), dec_bytes(x as nat), dec_bytes(y as nat)],
            Loc::Stow { cabinet, slot } => seq![w_stow(), dec_bytes(cabinet as nat), dec_bytes(slot as nat)],
        },
{
    assert(spaceless(w_hold()) && spaceless(w_laid()) && spaceless(w_stow()));
    match loc {
        Loc::Hold { room, x, y } | Loc::Laid { room, x, y } => {
            let head = if loc is Hold {
                w_hold()
            } else {
                w_laid()
            };
            lemma_dec_spaceless(room as nat);
            lemma_dec_spaceless(x as nat);
            lemma_dec_spaceless(y as nat);
            lemma_words_last(dec_bytes(y as nat), 10);
            let c = dec_bytes(y as nat) + seq![10u8];
            lemma_words_lead(dec_bytes(x as nat), 32, c);
            let b = then(dec_bytes(x as nat), c);
            lemma_words_lead(dec_bytes(room as nat), 32, b);
            let a = then(dec_bytes(room as nat), b);
            lemma_words_lead(head, 32, a);
            assert(seq![head] + (seq![dec_bytes(room as nat)] + (seq![dec_bytes(x as nat)] + seq![
                dec_bytes(y as nat),
            ])) =~= seq![head, dec_bytes(room as nat), dec_bytes(x as nat), dec_bytes(y as nat)]);
        },
        Loc::Stow { cabinet, slot } => {
            lemma_dec_spaceless(cabinet as nat);
            lemma_dec_spaceless(slot as nat);
            lemma_words_last(dec_bytes(slot as nat), 10);
            let b = dec_bytes(slot as nat) + seq![10u8];
            lemma_words_lead(dec_bytes(cabinet as nat), 32, b);
            let a = then(dec_bytes(cabinet as nat), b);
            lemma_words_lead(w_stow(), 32, a);
            assert(seq![w_stow()] + (seq![dec_bytes(cabinet as nat)] + seq![dec_bytes(slot as nat)]) =~= seq![
                w_stow(),
                dec_bytes(cabinet as nat),
                dec_bytes(slot as nat),
            ]);
        },
    }
}

/// **A saved piece reads back as itself**: the piece line of any piece
/// whose berth reads back names exactly that piece.
#[verifier::rlimit(40)]
#[verifier::spinoff_prover]
pub proof fn lemma_piece_line_round_trip(rooms: Rooms, p: Piece)
    requires
        berth_readable(rooms, p),
    ensures
        spec_read_piece(rooms, piece_text(p)) == Some(p),
{
    let g = if p.gnawed {
        seq![49u8]
    } else {
        seq![48u8]
    };
    assert(spaceless(w_piece()));
    assert(spaceless(g));
    lemma_dec_spaceless(p.id as nat);
    lemma_dec_spaceless(p.kind.spec_index() as nat);
    lemma_dec_spaceless(p.variant as nat);
    lemma_dec_bytes(p.id as nat);
    lemma_dec_bytes(p.kind.spec_index() as nat);
    lemma_dec_bytes(p.variant as nat);
    p.kind.lemma_index_round_trip();
    lemma_berth_words(p.loc);
    let bt = berth_text(p.loc);
    let t4 = then(g, bt);
    let t3 = then(dec_bytes(p.variant as nat), t4);
    let t2 = then(dec_bytes(p.kind.spec_index() as nat), t3);
    let t1 = then(dec_bytes(p.id as nat), t2);
    lemma_words_lead(g, 32, bt);
    lemma_words_lead(dec_bytes(p.variant as nat), 32, t4);
    lemma_words_lead(dec_bytes(p.kind.spec_index() as nat), 32, t3);
    lemma_words_lead(dec_bytes(p.id as nat), 32, t2);
    lemma_words_lead(w_piece(), 32, t1);
    let ws = words(piece_text(p));
    let head = seq![w_piece(), dec_bytes(p.id as nat), dec_bytes(p.kind.spec_index() as nat), dec_bytes(p.variant as nat), g];
    assert(ws =~= head + words(bt));
    assert(ws.skip(5) =~= words(bt));
    match p.loc {
        Loc::Hold { room, x, y } | Loc::Laid { room, x, y } => {
            lemma_dec_bytes(room as nat);
            lemma_dec_bytes(x as nat);
            lemma_dec_bytes(y as nat);
        },
        Loc::Stow { cabinet, slot } => {
            lemma_dec_bytes(cabinet as nat);
            lemma_dec_bytes(slot as nat);
        },
    }
}

/// Append word `w` and a space.
fn push_word(out: &mut Vec<u8>, w: &[u8])
    ensures
        final(out)@ == old(out)@ + w@ + seq![32u8],
{
    let mut k: usize = 0;
    let ghost start = out@;
    while k < w.len()
        invariant
            k <= w@.len(),
            out@ == start + w@.subrange(0, k as int),
        decreases w@.len() - k,
    {
        out.push(w[k]);
        proof {
            assert(w@.subrange(0, k + 1) =~= w@.subrange(0, k as int).push(w@[k as int]));
        }
        k = k + 1;
    }
    out.push(32);
    proof {
        assert(w@.subrange(0, w@.len() as int) =~= w@);
    }
}

/// The bytes of `piece`.
fn piece_word() -> (r: Vec<u8>)
    ensures
        r@ == w_piece(),
{
    let r = vec![112u8, 105u8, 101u8, 99u8, 101u8];
    assert(r@ =~= w_piece());
    r
}

/// The bytes of `hold`.
fn hold_word() -> (r: Vec<u8>)
    ensures
        r@ == w_hold(),
{
    let r = vec![104u8, 111u8, 108u8, 100u8];
    assert(r@ =~= w_hold());
    r
}

/// The bytes of `laid`.
fn laid_word() -> (r: Vec<u8>)
    ensures
        r@ == w_laid(),
{
    let r = vec![108u8, 97u8, 105u8, 100u8];
    assert(r@ =~= w_laid());
    r
}

/// The bytes of `stow`.
fn stow_word() -> (r: Vec<u8>)
    ensures
        r@ == w_stow(),
{
    let r = vec![115u8, 116u8, 111u8, 119u8];
    assert(r@ =~= w_stow());
    r
}

/// Append the berth words of `loc` and the line's end.
fn write_berth(out: &mut Vec<u8>, loc: Loc)
    ensures
        final(out)@ == old(out)@ + berth_text(loc),
{
    let ghost start = out@;
    match loc {
        Loc::Hold { room, x, y } | Loc::Laid { room, x, y } => {
            if matches!(loc, Loc::Hold { .. }) {
                push_word(out, hold_word().as_slice());
            } else {
                push_word(out, laid_word().as_slice());
            }
            let ghost s1 = out@;
            push_dec(out, room as u64);
            out.push(32);
            let ghost s2 = out@;
            push_dec(out, x as u64);
            out.push(32);
            let ghost s3 = out@;
            push_dec(out, y as u64);
            out.push(10);
            proof {
                let head = if loc is Hold {
                    w_hold()
                } else {
                    w_laid()
                };
                assert(s1 == start + head + seq![32u8]);
                assert(s2 =~= s1 + dec_bytes(room as nat) + seq![32u8]);
                assert(s3 =~= s2 + dec_bytes(x as nat) + seq![32u8]);
                assert(out@ =~= s3 + dec_bytes(y as nat) + seq![10u8]);
                assert(out@ =~= start + berth_text(loc));
            }
        },
        Loc::Stow { cabinet, slot } => {
            push_word(out, stow_word().as_slice());
            let ghost s1 = out@;
            push_dec(out, cabinet as u64);
            out.push(32);
            let ghost s2 = out@;
            push_dec(out, slot as u64);
            out.push(10);
            proof {
                assert(s2 =~= s1 + dec_bytes(cabinet as nat) + seq![32u8]);
                assert(out@ =~= s2 + dec_bytes(slot as nat) + seq![10u8]);
                assert(out@ =~= start + berth_text(loc));
            }
        },
    }
}

/// Append the line `piece` is saved as.
pub fn write_piece(out: &mut Vec<u8>, piece: &Piece)
    ensures
        final(out)@ == old(out)@ + piece_text(*piece),
{
    let ghost start = out@;
    push_word(out, piece_word().as_slice());
    let ghost s1 = out@;
    push_dec(out, piece.id as u64);
    out.push(32);
    let ghost s2 = out@;
    push_dec(out, piece.kind.index() as u64);
    out.push(32);
    let ghost s3 = out@;
    push_dec(out, piece.variant as u64);
    out.push(32);
    let ghost s4 = out@;
    out.push(if piece.gnawed {
        49
    } else {
        48
    });
    out.push(32);
    let ghost s5 = out@;
    write_berth(out, piece.loc);
    proof {
        let g = if piece.gnawed {
            seq![49u8]
        } else {
            seq![48u8]
        };
        assert(s2 =~= s1 + dec_bytes(piece.id as nat) + seq![32u8]);
        assert(s3 =~= s2 + dec_bytes(piece.kind.spec_index() as nat) + seq![32u8]);
        assert(s4 =~= s3 + dec_bytes(piece.variant as nat) + seq![32u8]);
        assert(s5 =~= s4 + g + seq![32u8]);
        assert(out@ =~= start + piece_text(*piece));
    }
}

/// The number word `line[a..b]` names, if it is no larger than `max`.
fn word_upto_exec(line: &[u8], a: usize, b: usize, max: u64) -> (r: Option<u64>)
    requires
        a <= b <= line@.len(),
    ensures
        r == match word_upto(line@.subrange(a as int, b as int), max as nat) {
            Some(v) => Some(v as u64),
            None => None::<u64>,
        },
{
    match word_u64(line, a, b) {
        Some(v) => if v <= max {
            Some(v)
        } else {
            None
        },
        None => None,
    }
}

/// The berth the words of `line` from `pos` on name, for a piece of
/// `kind`.
fn read_berth(rooms: &Rooms, kind: Kind, line: &[u8], pos: usize) -> (r: Option<Loc>)
    requires
        pos <= line@.len(),
    ensures
        r == berth_words(*rooms, kind, words_from(line@, pos as int)),
{
    let ghost ws = words_from(line@, pos as int);
    let (a0, b0) = match next_word(line, pos) {
        Some(w) => w,
        None => return None,
    };
    let hold = word_is(line, a0, b0, hold_word().as_slice());
    let laid = word_is(line, a0, b0, laid_word().as_slice());
    let stow = word_is(line, a0, b0, stow_word().as_slice());
    if hold || laid {
        let (a1, b1) = match next_word(line, b0) {
            Some(w) => w,
            None => return None,
        };
        let ghost w1 = words_from(line@, b1 as int);
        let (a2, b2) = match next_word(line, b1) {
            Some(w) => w,
            None => return None,
        };
        let (a3, b3) = match next_word(line, b2) {
            Some(w) => w,
            None => return None,
        };
        proof {
            assert(ws.len() >= 4);
            assert(ws[1] == line@.subrange(a1 as int, b1 as int));
            assert(ws[2] == line@.subrange(a2 as int, b2 as int));
            assert(ws[3] == line@.subrange(a3 as int, b3 as int));
        }
        let room = word_upto_exec(line, a1, b1, 255);
        let x = word_upto_exec(line, a2, b2, 255);
        let y = word_upto_exec(line, a3, b3, 255);
        match (room, x, y) {
            (Some(room), Some(x), Some(y)) => {
                let host = match rooms.kind(room as u8) {
                    Some(h) => h,
                    None => return None,
                };
                let face = kind.upright();
                let grid = host.grid();
                if x + face.0 as u64 > grid.0 as u64 || y + face.1 as u64 > grid.1 as u64 {
                    return None;
                }
                if hold {
                    Some(Loc::Hold { room: room as u8, x: x as u8, y: y as u8 })
                } else if kind.covering() {
                    Some(Loc::Laid { room: room as u8, x: x as u8, y: y as u8 })
                } else {
                    None
                }
            },
            _ => None,
        }
    } else if stow {
        let (a1, b1) = match next_word(line, b0) {
            Some(w) => w,
            None => return None,
        };
        let (a2, b2) = match next_word(line, b1) {
            Some(w) => w,
            None => return None,
        };
        proof {
            assert(ws.len() >= 3);
            assert(ws[1] == line@.subrange(a1 as int, b1 as int));
            assert(ws[2] == line@.subrange(a2 as int, b2 as int));
        }
        let cabinet = word_upto_exec(line, a1, b1, 0xFFFF_FFFF);
        let slot = word_upto_exec(line, a2, b2, 255);
        match (cabinet, slot) {
            (Some(cabinet), Some(slot)) => if slot < CABINET_SLOTS as u64 {
                Some(Loc::Stow { cabinet: cabinet as u32, slot: slot as u8 })
            } else {
                None
            },
            _ => None,
        }
    } else {
        None
    }
}

/// The piece a piece line names, if it names one: the bounds-checked
/// reading of [`write_piece`]'s output.
pub fn read_piece(rooms: &Rooms, line: &[u8]) -> (r: Option<Piece>)
    ensures
        r == spec_read_piece(*rooms, line@),
{
    let ghost ws = words(line@);
    let (a0, b0) = match next_word(line, 0) {
        Some(w) => w,
        None => return None,
    };
    if !word_is(line, a0, b0, piece_word().as_slice()) {
        return None;
    }
    let (a1, b1) = match next_word(line, b0) {
        Some(w) => w,
        None => return None,
    };
    let (a2, b2) = match next_word(line, b1) {
        Some(w) => w,
        None => return None,
    };
    let (a3, b3) = match next_word(line, b2) {
        Some(w) => w,
        None => return None,
    };
    let (a4, b4) = match next_word(line, b3) {
        Some(w) => w,
        None => return None,
    };
    proof {
        assert(ws[0] == line@.subrange(a0 as int, b0 as int));
        assert(ws[1] == line@.subrange(a1 as int, b1 as int));
        assert(ws[2] == line@.subrange(a2 as int, b2 as int));
        assert(ws[3] == line@.subrange(a3 as int, b3 as int));
        assert(ws[4] == line@.subrange(a4 as int, b4 as int));
        assert(ws.skip(5) =~= words_from(line@, b4 as int));
    }
    let id = word_upto_exec(line, a1, b1, 0xFFFF_FFFF);
    let column = word_u64(line, a2, b2);
    let variant = word_upto_exec(line, a3, b3, 255);
    let zero = word_is(line, a4, b4, &[48u8]);
    let one = word_is(line, a4, b4, &[49u8]);
    proof {
        assert(seq![48u8] =~= [48u8]@);
        assert(seq![49u8] =~= [49u8]@);
    }
    let gnawed = if zero {
        false
    } else if one {
        true
    } else {
        return None;
    };
    match (id, column, variant) {
        (Some(id), Some(column), Some(variant)) => {
            if column >= 32 {
                return None;
            }
            let kind = match Kind::from_index(column as usize) {
                Some(k) => k,
                None => return None,
            };
            match read_berth(rooms, kind, line, b4) {
                Some(loc) => Some(Piece { id: id as u32, kind, variant: variant as u8, gnawed, loc }),
                None => None,
            }
        },
        _ => None,
    }
}

/// `rat`
pub open spec fn w_rat() -> Seq<u8> {
    seq![114u8, 97u8, 116u8]
}

/// `enc`
pub open spec fn w_enc() -> Seq<u8> {
    seq![101u8, 110u8, 99u8]
}

/// `drone`
pub open spec fn w_drone() -> Seq<u8> {
    seq![100u8, 114u8, 111u8, 110u8, 101u8]
}

/// `-`, for nothing there.
pub open spec fn w_none() -> Seq<u8> {
    seq![45u8]
}

/// Whether the first `k` words of `ws` each name a number that fits a
/// `u64`.
pub open spec fn nums_ok(ws: Seq<Seq<u8>>, k: int) -> bool {
    ws.len() >= k && forall|j: int| 0 <= j < k ==> #[trigger] word_upto(ws[j], u64::MAX as nat) is Some
}

/// The number word `j` of `ws` names.
pub open spec fn num_at(ws: Seq<Seq<u8>>, j: int) -> nat {
    word_upto(ws[j], u64::MAX as nat)->0
}

/// A flag as the number it is written as.
pub open spec fn flag_num(b: bool) -> nat {
    if b {
        1
    } else {
        0
    }
}

/// The cabin's net grid, which a rat's cells must lie in.
pub open spec fn cabin_grid() -> (u8, u8) {
    RoomKind::Cabin.spec_grid()
}

/// What a `rat` line names: `Some(None)` for no rat, `None` when the
/// line is malformed.
pub open spec fn spec_read_rat(line: Seq<u8>) -> Option<Option<Rat>> {
    let ws = words(line);
    if ws.len() < 2 || ws[0] != w_rat() {
        None
    } else if ws[1] == w_none() {
        Some(None)
    } else {
        let v = ws.skip(1);
        if !nums_ok(v, 8) {
            None
        } else if num_at(v, 0) >= cabin_grid().0 || num_at(v, 1) >= cabin_grid().1 || num_at(v, 2) >= cabin_grid().0
            || num_at(v, 3) >= cabin_grid().1 || num_at(v, 7) >= CHASE_LIMIT {
            None
        } else {
            Some(
                Some(
                    Rat {
                        cell: (num_at(v, 0) as u8, num_at(v, 1) as u8),
                        prev_cell: (num_at(v, 2) as u8, num_at(v, 3) as u8),
                        moved_at: num_at(v, 4) as u64,
                        next_move: num_at(v, 5) as u64,
                        next_nibble: num_at(v, 6) as u64,
                        chases: num_at(v, 7) as u8,
                    },
                ),
            )
        }
    }
}

/// The numbers a rat is written as.
pub open spec fn rat_numbers(r: Rat) -> Seq<nat> {
    seq![
        r.cell.0 as nat,
        r.cell.1 as nat,
        r.prev_cell.0 as nat,
        r.prev_cell.1 as nat,
        r.moved_at as nat,
        r.next_move as nat,
        r.next_nibble as nat,
        r.chases as nat,
    ]
}

/// The `rat` line a stowaway (or its absence) is saved as.
pub open spec fn rat_text(rat: Option<Rat>) -> Seq<u8> {
    match rat {
        None => then(w_rat(), w_none() + seq![10u8]),
        Some(r) => then(w_rat(), numbers_text(rat_numbers(r))),
    }
}

/// The words of a saved record: its head word, then its numbers.
proof fn lemma_record_words(head: Seq<u8>, ns: Seq<nat>)
    requires
        head.len() >= 1,
        spaceless(head),
    ensures
        words(then(head, numbers_text(ns))) == seq![head] + dec_words(ns),
        forall|j: int| 0 <= j < ns.len() ==> #[trigger] word_upto(dec_words(ns)[j], u64::MAX as nat) == (if ns[j]
            <= u64::MAX {
            Some(ns[j])
        } else {
            None
        }),
{
    lemma_numbers_words(ns);
    lemma_words_lead(head, 32, numbers_text(ns));
    assert forall|j: int| 0 <= j < ns.len() implies #[trigger] word_upto(dec_words(ns)[j], u64::MAX as nat) == (if ns[j]
        <= u64::MAX {
        Some(ns[j])
    } else {
        None
    }) by {
        lemma_dec_bytes(ns[j]);
    }
}

/// The words of a record with nothing in it: its head word, then `-`.
proof fn lemma_empty_record_words(head: Seq<u8>)
    requires
        head.len() >= 1,
        spaceless(head),
    ensures
        words(then(head, w_none() + seq![10u8])) == seq![head, w_none()],
{
    assert(spaceless(w_none()));
    lemma_words_last(w_none(), 10);
    lemma_words_lead(head, 32, w_none() + seq![10u8]);
    assert(seq![head] + seq![w_none()] =~= seq![head, w_none()]);
}

/// **A saved stowaway reads back as itself**, on the cabin's net with
/// fewer than [`CHASE_LIMIT`] chases — as does its absence.
pub proof fn lemma_rat_line_round_trip(rat: Option<Rat>)
    requires
        rat matches Some(r) ==> r.cell.0 < cabin_grid().0 && r.cell.1 < cabin_grid().1 && r.prev_cell.0
            < cabin_grid().0 && r.prev_cell.1 < cabin_grid().1 && r.chases < CHASE_LIMIT,
    ensures
        spec_read_rat(rat_text(rat)) == Some(rat),
{
    assert(spaceless(w_rat()));
    match rat {
        None => {
            lemma_empty_record_words(w_rat());
        },
        Some(r) => {
            let ns = rat_numbers(r);
            lemma_record_words(w_rat(), ns);
            let ws = words(rat_text(rat));
            let v = ws.skip(1);
            assert(v =~= dec_words(ns));
            lemma_dec_bytes(ns[0]);
            assert(ws[1] == dec_bytes(ns[0]));
            assert(ws[1] != w_none()) by {
                assert(ws[1][0] != 45u8);
            }
            assert(nums_ok(v, 8));
        },
    }
}

/// What an `enc` line names: `Some(None)` for no encounter, `None` when
/// the line is malformed.
pub open spec fn spec_read_enc(line: Seq<u8>) -> Option<Option<Encounter>> {
    let ws = words(line);
    if ws.len() < 2 || ws[0] != w_enc() {
        None
    } else if ws[1] == w_none() {
        Some(None)
    } else {
        let v = ws.skip(1);
        if !nums_ok(v, 3) || v.len() < 6 {
            None
        } else if num_at(v, 0) > 255 || num_at(v, 2) <= num_at(v, 1) {
            None
        } else {
            match (EncounterKind::spec_from_token(num_at(v, 0) as int), gnaw_word(v[3]), gnaw_word(v[4]), gnaw_word(v[5])) {
                (Some(kind), Some(opened), Some(closed), Some(used)) => Some(
                    Some(
                        Encounter {
                            kind,
                            start: num_at(v, 1) as u64,
                            end: num_at(v, 2) as u64,
                            opened,
                            closed,
                            used,
                        },
                    ),
                ),
                _ => None,
            }
        }
    }
}

/// The numbers an encounter is written as.
pub open spec fn enc_numbers(e: Encounter) -> Seq<nat> {
    seq![
        e.kind.spec_token() as nat,
        e.start as nat,
        e.end as nat,
        flag_num(e.opened),
        flag_num(e.closed),
        flag_num(e.used),
    ]
}

/// The `enc` line this leg's encounter (or its absence) is saved as.
pub open spec fn enc_text(enc: Option<Encounter>) -> Seq<u8> {
    match enc {
        None => then(w_enc(), w_none() + seq![10u8]),
        Some(e) => then(w_enc(), numbers_text(enc_numbers(e))),
    }
}

/// A flag's word reads back as the flag.
proof fn lemma_flag_word(b: bool)
    ensures
        gnaw_word(dec_bytes(flag_num(b))) == Some(b),
{
    if b {
        assert(flag_num(b) == 1);
        assert(dec_bytes(1) =~= seq![49u8]);
        assert(dec_bytes(1) != seq![48u8]) by {
            assert(dec_bytes(1)[0] != seq![48u8][0]);
        }
    } else {
        assert(flag_num(b) == 0);
        assert(dec_bytes(0) =~= seq![48u8]);
    }
}

/// **A saved encounter reads back as itself**, whenever its window is not
/// empty — as does its absence.
pub proof fn lemma_enc_line_round_trip(enc: Option<Encounter>)
    requires
        enc matches Some(e) ==> e.start < e.end,
    ensures
        spec_read_enc(enc_text(enc)) == Some(enc),
{
    assert(spaceless(w_enc()));
    match enc {
        None => {
            lemma_empty_record_words(w_enc());
        },
        Some(e) => {
            let ns = enc_numbers(e);
            lemma_record_words(w_enc(), ns);
            let ws = words(enc_text(enc));
            let v = ws.skip(1);
            assert(v =~= dec_words(ns));
            lemma_dec_bytes(ns[0]);
            assert(ws[1] != w_none()) by {
                assert(ws[1][0] != 45u8);
            }
            assert(nums_ok(v, 3));
            lemma_flag_word(e.opened);
            lemma_flag_word(e.closed);
            lemma_flag_word(e.used);
            assert(v[3] == dec_bytes(flag_num(e.opened)));
            assert(v[4] == dec_bytes(flag_num(e.closed)));
            assert(v[5] == dec_bytes(flag_num(e.used)));
        },
    }
}

/// What a `drone` line names: `Some(None)` for no drone, `None` when the
/// line is malformed.
pub open spec fn spec_read_drone(line: Seq<u8>) -> Option<Option<Drone>> {
    let ws = words(line);
    if ws.len() < 2 || ws[0] != w_drone() {
        None
    } else if ws[1] == w_none() {
        Some(None)
    } else {
        let v = ws.skip(1);
        if !nums_ok(v, 2) || v.len() < 5 || !(word_upto(v[4], 255) is Some) {
            None
        } else if num_at(v, 1) <= num_at(v, 0) || word_upto(v[4], 255)->0 > AD_SWATS {
            None
        } else {
            match (gnaw_word(v[2]), gnaw_word(v[3])) {
                (Some(attached), Some(gone)) => Some(
                    Some(
                        Drone {
                            start: num_at(v, 0) as u64,
                            end: num_at(v, 1) as u64,
                            attached,
                            gone,
                            swats: word_upto(v[4], 255)->0 as u8,
                        },
                    ),
                ),
                _ => None,
            }
        }
    }
}

/// The numbers a drone is written as.
pub open spec fn drone_numbers(d: Drone) -> Seq<nat> {
    seq![d.start as nat, d.end as nat, flag_num(d.attached), flag_num(d.gone), d.swats as nat]
}

/// The `drone` line this leg's drone (or its absence) is saved as.
pub open spec fn drone_text(drone: Option<Drone>) -> Seq<u8> {
    match drone {
        None => then(w_drone(), w_none() + seq![10u8]),
        Some(d) => then(w_drone(), numbers_text(drone_numbers(d))),
    }
}

/// **A saved drone reads back as itself**, whenever its window is not
/// empty and it has not taken more than [`AD_SWATS`] swats — as does its
/// absence.
pub proof fn lemma_drone_line_round_trip(drone: Option<Drone>)
    requires
        drone matches Some(d) ==> d.start < d.end && d.swats <= AD_SWATS,
    ensures
        spec_read_drone(drone_text(drone)) == Some(drone),
{
    assert(spaceless(w_drone()));
    match drone {
        None => {
            lemma_empty_record_words(w_drone());
        },
        Some(d) => {
            let ns = drone_numbers(d);
            lemma_record_words(w_drone(), ns);
            let ws = words(drone_text(drone));
            let v = ws.skip(1);
            assert(v =~= dec_words(ns));
            lemma_dec_bytes(ns[0]);
            lemma_dec_bytes(ns[4]);
            assert(ws[1] != w_none()) by {
                assert(ws[1][0] != 45u8);
            }
            assert(nums_ok(v, 2));
            lemma_flag_word(d.attached);
            lemma_flag_word(d.gone);
            assert(v[2] == dec_bytes(flag_num(d.attached)));
            assert(v[3] == dec_bytes(flag_num(d.gone)));
        },
    }
}

/// The numbers named by words `from .. from + k` of a line whose words
/// `ws` the spans `sp` cover — all of them, or `None` when one is not a
/// number that fits a `u64`.
fn read_nums(line: &[u8], ws: Ghost<Seq<Seq<u8>>>, sp: &Vec<(usize, usize)>, from: usize, k: usize) -> (r: Option<
    Vec<u64>,
>)
    requires
        from + k <= sp@.len(),
        ws@.len() >= sp@.len(),
        spans_match(line@, ws@, sp@),
    ensures
        match r {
            Some(v) => v@.len() == k && forall|j: int|
                0 <= j < k ==> #[trigger] word_upto(ws@[from + j], u64::MAX as nat) == Some(v@[j] as nat),
            None => exists|j: int| 0 <= j < k && #[trigger] word_upto(ws@[from + j], u64::MAX as nat) is None,
        },
{
    let mut v: Vec<u64> = Vec::new();
    let mut j: usize = 0;
    while j < k
        invariant
            from + k <= sp@.len(),
            ws@.len() >= sp@.len(),
            spans_match(line@, ws@, sp@),
            j <= k,
            v@.len() == j,
            forall|q: int| 0 <= q < j ==> #[trigger] word_upto(ws@[from + q], u64::MAX as nat) == Some(v@[q] as nat),
        decreases k - j,
    {
        let len = sp.len();
        assert(from + j < len);
        let (a, b) = sp[from + j];
        proof {
            assert(ws@[from + j] == line@.subrange(a as int, b as int));
        }
        match word_u64(line, a, b) {
            Some(n) => {
                v.push(n);
            },
            None => {
                proof {
                    assert(word_upto(ws@[from + j as int], u64::MAX as nat) is None);
                }
                return None;
            },
        }
        j = j + 1;
    }
    Some(v)
}

/// Whether word `sp` of `line` is `lit`.
fn span_is(line: &[u8], span: (usize, usize), lit: &[u8]) -> (r: bool)
    requires
        span.0 <= span.1 <= line@.len(),
    ensures
        r == (line@.subrange(span.0 as int, span.1 as int) == lit@),
{
    word_is(line, span.0, span.1, lit)
}

/// The bytes of `rat`.
fn rat_word() -> (r: Vec<u8>)
    ensures
        r@ == w_rat(),
{
    let r = vec![114u8, 97u8, 116u8];
    assert(r@ =~= w_rat());
    r
}

/// The bytes of `enc`.
fn enc_word() -> (r: Vec<u8>)
    ensures
        r@ == w_enc(),
{
    let r = vec![101u8, 110u8, 99u8];
    assert(r@ =~= w_enc());
    r
}

/// The bytes of `drone`.
fn drone_word() -> (r: Vec<u8>)
    ensures
        r@ == w_drone(),
{
    let r = vec![100u8, 114u8, 111u8, 110u8, 101u8];
    assert(r@ =~= w_drone());
    r
}

/// The bytes of `-`.
fn none_word() -> (r: Vec<u8>)
    ensures
        r@ == w_none(),
{
    let r = vec![45u8];
    assert(r@ =~= w_none());
    r
}

/// Append a record with nothing in it: `head -`.
fn write_empty_record(out: &mut Vec<u8>, head: &[u8])
    ensures
        final(out)@ == old(out)@ + then(head@, w_none() + seq![10u8]),
{
    let ghost start = out@;
    push_word(out, head);
    out.push(45);
    out.push(10);
    assert(out@ =~= start + then(head@, w_none() + seq![10u8]));
}

/// Append a record: `head` and its numbers.
fn write_record(out: &mut Vec<u8>, head: &[u8], ns: &[u64])
    ensures
        final(out)@ == old(out)@ + then(head@, numbers_text(ns@.map_values(|n: u64| n as nat))),
{
    let ghost start = out@;
    push_word(out, head);
    let ghost mid = out@;
    write_numbers(out, ns);
    assert(out@ =~= start + then(head@, numbers_text(ns@.map_values(|n: u64| n as nat))));
}

/// Append the `rat` line the stowaway (or its absence) is saved as.
pub fn write_rat(out: &mut Vec<u8>, rat: Option<Rat>)
    ensures
        final(out)@ == old(out)@ + rat_text(rat),
{
    match rat {
        None => write_empty_record(out, rat_word().as_slice()),
        Some(r) => {
            let ns: [u64; 8] = [
                r.cell.0 as u64,
                r.cell.1 as u64,
                r.prev_cell.0 as u64,
                r.prev_cell.1 as u64,
                r.moved_at,
                r.next_move,
                r.next_nibble,
                r.chases as u64,
            ];
            assert(ns@.map_values(|n: u64| n as nat) =~= rat_numbers(r));
            write_record(out, rat_word().as_slice(), &ns);
        },
    }
}

/// The stowaway a `rat` line names: `Some(None)` for none, `None` when
/// the line is malformed.
pub fn read_rat(line: &[u8]) -> (r: Option<Option<Rat>>)
    ensures
        r == spec_read_rat(line@),
{
    let ghost ws = words(line@);
    let sp = match read_words(line, 0, 2) {
        Some(sp) => sp,
        None => return None,
    };
    if !span_is(line, sp[0], rat_word().as_slice()) {
        return None;
    }
    if span_is(line, sp[1], none_word().as_slice()) {
        return Some(None);
    }
    let sp = match read_words(line, 0, 9) {
        Some(sp) => sp,
        None => {
            proof {
                assert(ws.skip(1).len() < 8);
            }
            return None;
        },
    };
    let v = match read_nums(line, Ghost(ws), &sp, 1, 8) {
        Some(v) => v,
        None => {
            proof {
                let j = choose|j: int| 0 <= j < 8 && #[trigger] word_upto(ws[1 + j], u64::MAX as nat) is None;
                assert(ws.skip(1)[j] == ws[1 + j]);
                assert(!nums_ok(ws.skip(1), 8));
            }
            return None;
        },
    };
    proof {
        let w = ws.skip(1);
        assert forall|j: int| 0 <= j < 8 implies #[trigger] word_upto(w[j], u64::MAX as nat) is Some && num_at(w, j)
            == v@[j] as nat by {
            assert(w[j] == ws[1 + j]);
            assert(word_upto(ws[1 + j], u64::MAX as nat) == Some(v@[j] as nat));
        }
        assert(nums_ok(w, 8));
    }
    let (cols, rows) = RoomKind::Cabin.grid();
    if v[0] >= cols as u64 || v[1] >= rows as u64 || v[2] >= cols as u64 || v[3] >= rows as u64
        || v[7] >= CHASE_LIMIT as u64 {
        return None;
    }
    Some(
        Some(
            Rat {
                cell: (v[0] as u8, v[1] as u8),
                prev_cell: (v[2] as u8, v[3] as u8),
                moved_at: v[4],
                next_move: v[5],
                next_nibble: v[6],
                chases: v[7] as u8,
            },
        ),
    )
}

/// The flag a word names: `0` or `1`.
fn read_flag(line: &[u8], span: (usize, usize)) -> (r: Option<bool>)
    requires
        span.0 <= span.1 <= line@.len(),
    ensures
        r == gnaw_word(line@.subrange(span.0 as int, span.1 as int)),
{
    proof {
        assert(seq![48u8] =~= [48u8]@);
        assert(seq![49u8] =~= [49u8]@);
    }
    if span_is(line, span, &[48u8]) {
        Some(false)
    } else if span_is(line, span, &[49u8]) {
        Some(true)
    } else {
        None
    }
}

/// A flag as the number it is written as.
fn flag_number(b: bool) -> (r: u64)
    ensures
        r == flag_num(b),
{
    if b {
        1
    } else {
        0
    }
}

/// Append the `enc` line this leg's encounter (or its absence) is saved
/// as.
pub fn write_enc(out: &mut Vec<u8>, enc: Option<Encounter>)
    ensures
        final(out)@ == old(out)@ + enc_text(enc),
{
    match enc {
        None => write_empty_record(out, enc_word().as_slice()),
        Some(e) => {
            let ns: [u64; 6] = [
                e.kind.token() as u64,
                e.start,
                e.end,
                flag_number(e.opened),
                flag_number(e.closed),
                flag_number(e.used),
            ];
            assert(ns@.map_values(|n: u64| n as nat) =~= enc_numbers(e));
            write_record(out, enc_word().as_slice(), &ns);
        },
    }
}

/// The encounter an `enc` line names: `Some(None)` for none, `None` when
/// the line is malformed.
pub fn read_enc(line: &[u8]) -> (r: Option<Option<Encounter>>)
    ensures
        r == spec_read_enc(line@),
{
    let ghost ws = words(line@);
    let sp = match read_words(line, 0, 2) {
        Some(sp) => sp,
        None => return None,
    };
    if !span_is(line, sp[0], enc_word().as_slice()) {
        return None;
    }
    if span_is(line, sp[1], none_word().as_slice()) {
        return Some(None);
    }
    let sp = match read_words(line, 0, 7) {
        Some(sp) => sp,
        None => {
            proof {
                assert(ws.skip(1).len() < 6);
            }
            return None;
        },
    };
    let v = match read_nums(line, Ghost(ws), &sp, 1, 3) {
        Some(v) => v,
        None => {
            proof {
                let j = choose|j: int| 0 <= j < 3 && #[trigger] word_upto(ws[1 + j], u64::MAX as nat) is None;
                assert(ws.skip(1)[j] == ws[1 + j]);
                assert(!nums_ok(ws.skip(1), 3));
            }
            return None;
        },
    };
    proof {
        let w = ws.skip(1);
        assert forall|j: int| 0 <= j < 3 implies #[trigger] word_upto(w[j], u64::MAX as nat) is Some && num_at(w, j)
            == v@[j] as nat by {
            assert(w[j] == ws[1 + j]);
            assert(word_upto(ws[1 + j], u64::MAX as nat) == Some(v@[j] as nat));
        }
        assert(nums_ok(w, 3));
        assert(w[3] == ws[4] && w[4] == ws[5] && w[5] == ws[6]);
    }
    if v[0] > 255 || v[2] <= v[1] {
        return None;
    }
    let kind = EncounterKind::from_token(v[0] as u8);
    let opened = read_flag(line, sp[4]);
    let closed = read_flag(line, sp[5]);
    let used = read_flag(line, sp[6]);
    match (kind, opened, closed, used) {
        (Some(kind), Some(opened), Some(closed), Some(used)) => Some(
            Some(Encounter { kind, start: v[1], end: v[2], opened, closed, used }),
        ),
        _ => None,
    }
}

/// Append the `drone` line this leg's drone (or its absence) is saved as.
pub fn write_drone(out: &mut Vec<u8>, drone: Option<Drone>)
    ensures
        final(out)@ == old(out)@ + drone_text(drone),
{
    match drone {
        None => write_empty_record(out, drone_word().as_slice()),
        Some(d) => {
            let ns: [u64; 5] = [
                d.start,
                d.end,
                flag_number(d.attached),
                flag_number(d.gone),
                d.swats as u64,
            ];
            assert(ns@.map_values(|n: u64| n as nat) =~= drone_numbers(d));
            write_record(out, drone_word().as_slice(), &ns);
        },
    }
}

/// The drone a `drone` line names: `Some(None)` for none, `None` when the
/// line is malformed.
pub fn read_drone(line: &[u8]) -> (r: Option<Option<Drone>>)
    ensures
        r == spec_read_drone(line@),
{
    let ghost ws = words(line@);
    let sp = match read_words(line, 0, 2) {
        Some(sp) => sp,
        None => return None,
    };
    if !span_is(line, sp[0], drone_word().as_slice()) {
        return None;
    }
    if span_is(line, sp[1], none_word().as_slice()) {
        return Some(None);
    }
    let sp = match read_words(line, 0, 6) {
        Some(sp) => sp,
        None => {
            proof {
                assert(ws.skip(1).len() < 5);
            }
            return None;
        },
    };
    let v = match read_nums(line, Ghost(ws), &sp, 1, 2) {
        Some(v) => v,
        None => {
            proof {
                let j = choose|j: int| 0 <= j < 2 && #[trigger] word_upto(ws[1 + j], u64::MAX as nat) is None;
                assert(ws.skip(1)[j] == ws[1 + j]);
                assert(!nums_ok(ws.skip(1), 2));
            }
            return None;
        },
    };
    proof {
        let w = ws.skip(1);
        assert forall|j: int| 0 <= j < 2 implies #[trigger] word_upto(w[j], u64::MAX as nat) is Some && num_at(w, j)
            == v@[j] as nat by {
            assert(w[j] == ws[1 + j]);
            assert(word_upto(ws[1 + j], u64::MAX as nat) == Some(v@[j] as nat));
        }
        assert(nums_ok(w, 2));
        assert(w[2] == ws[3] && w[3] == ws[4] && w[4] == ws[5]);
        assert(ws[5] == line@.subrange(sp@[5].0 as int, sp@[5].1 as int));
    }
    let swats = match word_u64(line, sp[5].0, sp[5].1) {
        Some(n) => if n <= 255 {
            n
        } else {
            return None;
        },
        None => return None,
    };
    if v[1] <= v[0] || swats > AD_SWATS as u64 {
        return None;
    }
    let attached = read_flag(line, sp[3]);
    let gone = read_flag(line, sp[4]);
    match (attached, gone) {
        (Some(attached), Some(gone)) => Some(
            Some(Drone { start: v[0], end: v[1], attached, gone, swats: swats as u8 }),
        ),
        _ => None,
    }
}

/// Written numbers are one whole line.
pub proof fn lemma_numbers_one(ns: Seq<nat>)
    ensures
        one_line(numbers_text(ns)),
    decreases ns.len(),
{
    if ns.len() == 0 {
        assert(numbers_text(ns).drop_last() =~= Seq::<u8>::empty());
    } else if ns.len() == 1 {
        lemma_dec_spaceless(ns[0]);
        assert(numbers_text(ns).drop_last() =~= dec_bytes(ns[0]));
        assert forall|k: int| 0 <= k < dec_bytes(ns[0]).len() implies #[trigger] dec_bytes(ns[0])[k] != 10
            && dec_bytes(ns[0])[k] != 13 by {
            assert(!is_space(dec_bytes(ns[0])[k]));
        }
    } else {
        lemma_dec_spaceless(ns[0]);
        lemma_numbers_one(ns.drop_first());
        lemma_word_then_one(dec_bytes(ns[0]), numbers_text(ns.drop_first()));
    }
}

/// A lone word ended by a line feed is one whole line.
proof fn lemma_last_word_one(w: Seq<u8>)
    requires
        spaceless(w),
    ensures
        one_line(w + seq![10u8]),
{
    assert((w + seq![10u8]).drop_last() =~= w);
    assert forall|k: int| 0 <= k < w.len() implies #[trigger] w[k] != 10 && w[k] != 13 by {
        assert(!is_space(w[k]));
    }
}

/// A piece line is one whole line.
pub proof fn lemma_piece_one(p: Piece)
    ensures
        one_line(piece_text(p)),
{
    assert(spaceless(w_piece()));
    assert(spaceless(w_hold()));
    assert(spaceless(w_laid()));
    assert(spaceless(w_stow()));
    assert(spaceless(seq![48u8]));
    assert(spaceless(seq![49u8]));
    lemma_dec_spaceless(p.id as nat);
    lemma_dec_spaceless(p.kind.spec_index() as nat);
    lemma_dec_spaceless(p.variant as nat);
    match p.loc {
        Loc::Hold { room, x, y } => {
            lemma_dec_spaceless(room as nat);
            lemma_dec_spaceless(x as nat);
            lemma_dec_spaceless(y as nat);
            lemma_last_word_one(dec_bytes(y as nat));
            lemma_word_then_one(dec_bytes(x as nat), dec_bytes(y as nat) + seq![10u8]);
            lemma_word_then_one(dec_bytes(room as nat), then(dec_bytes(x as nat), dec_bytes(y as nat) + seq![10u8]));
            lemma_word_then_one(
                w_hold(),
                then(dec_bytes(room as nat), then(dec_bytes(x as nat), dec_bytes(y as nat) + seq![10u8])),
            );
        },
        Loc::Laid { room, x, y } => {
            lemma_dec_spaceless(room as nat);
            lemma_dec_spaceless(x as nat);
            lemma_dec_spaceless(y as nat);
            lemma_last_word_one(dec_bytes(y as nat));
            lemma_word_then_one(dec_bytes(x as nat), dec_bytes(y as nat) + seq![10u8]);
            lemma_word_then_one(dec_bytes(room as nat), then(dec_bytes(x as nat), dec_bytes(y as nat) + seq![10u8]));
            lemma_word_then_one(
                w_laid(),
                then(dec_bytes(room as nat), then(dec_bytes(x as nat), dec_bytes(y as nat) + seq![10u8])),
            );
        },
        Loc::Stow { cabinet, slot } => {
            lemma_dec_spaceless(cabinet as nat);
            lemma_dec_spaceless(slot as nat);
            lemma_last_word_one(dec_bytes(slot as nat));
            lemma_word_then_one(dec_bytes(cabinet as nat), dec_bytes(slot as nat) + seq![10u8]);
            lemma_word_then_one(w_stow(), then(dec_bytes(cabinet as nat), dec_bytes(slot as nat) + seq![10u8]));
        },
    }
    let flag = if p.gnawed {
        seq![49u8]
    } else {
        seq![48u8]
    };
    let b = berth_text(p.loc);
    lemma_word_then_one(flag, b);
    lemma_word_then_one(dec_bytes(p.variant as nat), then(flag, b));
    lemma_word_then_one(dec_bytes(p.kind.spec_index() as nat), then(dec_bytes(p.variant as nat), then(flag, b)));
    lemma_word_then_one(
        dec_bytes(p.id as nat),
        then(dec_bytes(p.kind.spec_index() as nat), then(dec_bytes(p.variant as nat), then(flag, b))),
    );
    lemma_word_then_one(
        w_piece(),
        then(
            dec_bytes(p.id as nat),
            then(dec_bytes(p.kind.spec_index() as nat), then(dec_bytes(p.variant as nat), then(flag, b))),
        ),
    );
}

/// A record line, full or empty, is one whole line.
proof fn lemma_record_one(head: Seq<u8>, ns: Option<Seq<nat>>)
    requires
        spaceless(head),
    ensures
        one_line(
            match ns {
                None => then(head, w_none() + seq![10u8]),
                Some(ns) => then(head, numbers_text(ns)),
            },
        ),
{
    match ns {
        None => {
            assert(spaceless(w_none()));
            lemma_last_word_one(w_none());
            lemma_word_then_one(head, w_none() + seq![10u8]);
        },
        Some(ns) => {
            lemma_numbers_one(ns);
            lemma_word_then_one(head, numbers_text(ns));
        },
    }
}

/// The `enc`, `drone` and `rat` lines are each one whole line.
pub proof fn lemma_records_one(enc: Option<Encounter>, drone: Option<Drone>, rat: Option<Rat>)
    ensures
        one_line(enc_text(enc)),
        one_line(drone_text(drone)),
        one_line(rat_text(rat)),
{
    assert(spaceless(w_enc()));
    assert(spaceless(w_drone()));
    assert(spaceless(w_rat()));
    lemma_record_one(w_enc(), match enc {
        None => None,
        Some(e) => Some(enc_numbers(e)),
    });
    lemma_record_one(w_drone(), match drone {
        None => None,
        Some(d) => Some(drone_numbers(d)),
    });
    lemma_record_one(w_rat(), match rat {
        None => None,
        Some(r) => Some(rat_numbers(r)),
    });
}

} // verus!
