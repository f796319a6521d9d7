//! The ship rat: the game's second event, sibling to the omen machine.
//!
//! A crowded hold (at least half the floor stowed) rolls one-in-four at
//! each departure for a stowaway; the rat lives in one cabin cell and
//! skitters between them every ten seconds or so, and every ~45 s it
//! gnaws the piece nearest its cell, which is then worth a little less at
//! every station forever. Haul lean — a third of the floor or less at any
//! dock — and the rat walks off on its own, nothing to eat.
//!
//! Rats fear light: no hop lands in, no boarding starts in, and no nibble
//! happens in a cell beside a lit lamp. And the couch tempts them: with
//! one stowed, hops become single steps toward the nearest couch cell,
//! and once aboard it naps. A rat never destroys, moves, or blocks
//! anything; its single mark on the world is the permanent `gnawed` flag
//! on a piece.

use vstd::prelude::*;
use crate::sim::cargo::{Kind, Loc, Piece, lemma_extent_small, lights_cell, lit_adjacent};
use crate::sim::room::{CABIN, RoomKind, Surf};
use crate::sim::{spec_splitmix, splitmix};

verus! {

/// The rat is a cabin animal: it stows away in the room you live in and
/// never crosses a seam.
pub const RATS_ROOM: RoomKind = RoomKind::Cabin;

/// The cabin net's bounding grid, the rat's whole country.
pub const GRID_COLS: u8 = 22;

/// The cabin net's bounding grid, the rat's whole country.
pub const GRID_ROWS: u8 = 13;

/// The floor's cell count — the crowding gates' yardstick.
pub const FLOOR_CELLS: u32 = 56;

/// Boarding gate: a rat only stows away when at least this many floor
/// cells are under cargo — half the floor.
pub const CROWDED_CELLS: u32 = 28;

/// Walk-off gate: docking with at most this many floor cells under
/// cargo — a third of the floor — sends the rat ashore.
pub const SPARSE_CELLS: u32 = 18;

/// One crowded departure in this many rolls a stowaway.
pub const BOARD_CHANCE: u64 = 4;

/// Chases before the rat abandons ship entirely.
pub const CHASE_LIMIT: u8 = 3;

/// Relocation cadence: 8 s base plus up to 4 s of jitter (~10 s mean).
pub const MOVE_BASE: u64 = 480;

pub const MOVE_JITTER: u64 = 240;

/// Nibble cadence: 40 s base plus up to 10 s of jitter (~45 s mean).
pub const NIBBLE_BASE: u64 = 2400;

pub const NIBBLE_JITTER: u64 = 600;

/// Hop cadence multiplier while napping on the couch: three times lazier.
pub const NAP_LAZE: u64 = 3;

/// Stream salts, so the boarding roll, the hop draws, and the chase draws
/// never collide with each other or with any other derived stream.
pub const SALT_BOARD: u64 = 0x2A75_B04D;

pub const SALT_MOVE: u64 = 0x2A75_3C17;

pub const SALT_NIBBLE: u64 = 0x2A75_4B1E;

pub const SALT_CHASE: u64 = 0x2A75_C4A5;

/// One stowaway. At most one exists at a time.
#[derive(Clone, Copy, Debug, PartialEq, Eq)]
pub struct Rat {
    /// The cabin cell it currently occupies.
    pub cell: (u8, u8),
    /// The cell it last hopped from, for the renderer's hop tween.
    pub prev_cell: (u8, u8),
    /// Tick of that hop, for the same tween.
    pub moved_at: u64,
    /// Tick of the next scheduled relocation.
    pub next_move: u64,
    /// Tick of the next gnaw.
    pub next_nibble: u64,
    /// Times chased so far, `0..CHASE_LIMIT`.
    pub chases: u8,
}

/// The rat event's whole state: the stowaway, if one is aboard.
#[derive(Clone, Debug)]
pub struct Rats {
    pub rat: Option<Rat>,
}

impl Rats {
    /// No rat aboard.
    pub fn new() -> (r: Self)
        ensures
            r.rat is None,
    {
        Rats { rat: None }
    }
}

/// Whether every cabin berth of `pieces` sits far enough from the edge of
/// the byte range for its footprint's cells to be named.
pub open spec fn berths_in_range(pieces: Seq<Piece>) -> bool {
    forall|i: int|
        0 <= i < pieces.len() ==> match (#[trigger] pieces[i]).loc {
            Loc::Hold { x, y, .. } | Loc::Laid { x, y, .. } => x < 250 && y < 250,
            Loc::Stow { .. } => true,
        }
}

/// The floor cells one piece covers in the cabin: its upright face on the
/// floor chart, nothing anywhere else.
pub open spec fn floor_share(piece: Piece) -> int {
    match piece.loc {
        Loc::Hold { room, x, y } => if room == CABIN && RATS_ROOM.spec_surface_of(x as int, y as int) == Some(
            Surf::Floor,
        ) {
            piece.kind.spec_extent().0 * piece.kind.spec_extent().2
        } else {
            0
        },
        _ => 0,
    }
}

/// Floor cells under the first `n` pieces.
pub open spec fn floor_total(pieces: Seq<Piece>, n: int) -> int
    decreases n,
{
    if n <= 0 {
        0
    } else {
        floor_total(pieces, n - 1) + floor_share(pieces[n - 1])
    }
}

/// FLOOR cells covered by stowed pieces — the "cargo distribution"
/// number both gates read. Wall and ceiling berths never count: food
/// density is a floor phenomenon.
pub fn occupied_cells(pieces: &[Piece]) -> (r: u32)
    requires
        pieces@.len() < 0x1000_0000,
    ensures
        r == floor_total(pieces@, pieces@.len() as int),
{
    let mut total: u32 = 0;
    let mut i: usize = 0;
    while i < pieces.len()
        invariant
            i <= pieces@.len(),
            pieces@.len() < 0x1000_0000,
            total == floor_total(pieces@, i as int),
            total <= 4 * i,
        decreases pieces@.len() - i,
    {
        let piece = pieces[i];
        assert(piece == pieces@[i as int]);
        if let Loc::Hold { room, x, y } = piece.loc {
            if room == CABIN && RATS_ROOM.surface_of(x, y) == Some(Surf::Floor) {
                let (w, h) = piece.kind.upright();
                proof {
                    lemma_extent_small(piece.kind);
                    assert(w as int * h as int <= 4) by (nonlinear_arith)
                        requires
                            w <= 2,
                            h <= 2,
                    ;
                }
                total = total + w as u32 * h as u32;
            }
        }
        i = i + 1;
    }
    total
}

/// The footprint a cabin berth covers, as the rat sees it: the piece's
/// upright face from its anchor.
pub open spec fn under_piece(piece: Piece, cx: int, cy: int) -> bool {
    match piece.loc {
        Loc::Hold { room, x, y } => room == CABIN && x <= cx < x + piece.kind.spec_extent().0 && y <= cy < y
            + piece.kind.spec_extent().2,
        _ => false,
    }
}

/// Whether cabin cell `(cx, cy)` sits under a stowed piece's footprint.
pub open spec fn spec_covered(pieces: Seq<Piece>, cx: int, cy: int) -> bool {
    exists|i: int| 0 <= i < pieces.len() && #[trigger] under_piece(pieces[i], cx, cy)
}

/// Whether cabin cell `(cx, cy)` sits under a stowed piece's footprint.
fn covered(pieces: &[Piece], cx: u8, cy: u8) -> (r: bool)
    requires
        berths_in_range(pieces@),
    ensures
        r == spec_covered(pieces@, cx as int, cy as int),
{
    let mut i: usize = 0;
    while i < pieces.len()
        invariant
            i <= pieces@.len(),
            berths_in_range(pieces@),
            forall|j: int| 0 <= j < i ==> !#[trigger] under_piece(pieces@[j], cx as int, cy as int),
        decreases pieces@.len() - i,
    {
        let piece = pieces[i];
        assert(piece == pieces@[i as int]);
        if let Loc::Hold { room, x, y } = piece.loc {
            if room == CABIN {
                let (w, h) = piece.kind.upright();
                proof {
                    lemma_extent_small(piece.kind);
                }
                if cx >= x && cx < x + w && cy >= y && cy < y + h {
                    assert(under_piece(pieces@[i as int], cx as int, cy as int));
                    return true;
                }
            }
        }
        i = i + 1;
    }
    false
}

/// Whether lamplight falls on cabin cell `(x, y)`.
pub open spec fn spec_lit(pieces: Seq<Piece>, x: int, y: int) -> bool {
    0 <= x < 255 && 0 <= y < 255 && exists|i: int|
        0 <= i < pieces.len() && lights_cell(RATS_ROOM, CABIN, x as u8, y as u8, #[trigger] pieces[i])
}

/// Whether the rat may take cell `(x, y)`: a cell of the net, not the one
/// it is leaving, not in lamplight, and — when `bare` — not under cargo.
pub open spec fn rat_may(pieces: Seq<Piece>, avoid: Option<(u8, u8)>, bare: bool, x: int, y: int) -> bool {
    &&& RATS_ROOM.spec_surface_of(x, y) is Some
    &&& avoid != Some((x as u8, y as u8))
    &&& !spec_lit(pieces, x, y)
    &&& bare ==> !spec_covered(pieces, x, y)
}

/// The cells of row `y` before column `n` the rat may take, left to right.
pub open spec fn row_cells(pieces: Seq<Piece>, avoid: Option<(u8, u8)>, bare: bool, y: int, n: int) -> Seq<(u8, u8)>
    decreases n,
{
    if n <= 0 {
        Seq::empty()
    } else {
        let rest = row_cells(pieces, avoid, bare, y, n - 1);
        if rat_may(pieces, avoid, bare, n - 1, y) {
            rest.push(((n - 1) as u8, y as u8))
        } else {
            rest
        }
    }
}

/// The cells of the first `m` rows the rat may take, in row-major order.
pub open spec fn grid_cells(pieces: Seq<Piece>, avoid: Option<(u8, u8)>, bare: bool, m: int) -> Seq<(u8, u8)>
    decreases m,
{
    if m <= 0 {
        Seq::empty()
    } else {
        grid_cells(pieces, avoid, bare, m - 1) + row_cells(pieces, avoid, bare, m - 1, GRID_COLS as int)
    }
}

/// Where the rat goes on hash `h`: bare cells preferred, any unlit cell
/// otherwise, the `h`-th of them cycling; nowhere when every candidate is
/// lit.
pub open spec fn spec_choose_cell(h: u64, pieces: Seq<Piece>, avoid: Option<(u8, u8)>) -> Option<(u8, u8)> {
    let empty = grid_cells(pieces, avoid, true, GRID_ROWS as int);
    let any = grid_cells(pieces, avoid, false, GRID_ROWS as int);
    let pool = if empty.len() > 0 {
        empty
    } else {
        any
    };
    if pool.len() == 0 {
        None
    } else {
        Some(pool[(h % (pool.len() as u64)) as int])
    }
}

/// Every cell a row offers lies within the grid's columns.
proof fn lemma_row_in_grid(pieces: Seq<Piece>, avoid: Option<(u8, u8)>, bare: bool, y: int, n: int)
    requires
        0 <= y < GRID_ROWS,
        0 <= n <= GRID_COLS,
    ensures
        forall|i: int|
            0 <= i < row_cells(pieces, avoid, bare, y, n).len() ==> (#[trigger] row_cells(pieces, avoid, bare, y, n)[i]).0
                < GRID_COLS && row_cells(pieces, avoid, bare, y, n)[i].1 < GRID_ROWS,
    decreases n,
{
    if n > 0 {
        lemma_row_in_grid(pieces, avoid, bare, y, n - 1);
        let rest = row_cells(pieces, avoid, bare, y, n - 1);
        let row = row_cells(pieces, avoid, bare, y, n);
        assert forall|i: int| 0 <= i < row.len() implies (#[trigger] row[i]).0 < GRID_COLS && row[i].1 < GRID_ROWS by {
            if i < rest.len() {
                assert(row[i] == rest[i]);
            }
        }
    }
}

/// Every cell the grid offers lies within it.
proof fn lemma_grid_in_grid(pieces: Seq<Piece>, avoid: Option<(u8, u8)>, bare: bool, m: int)
    requires
        0 <= m <= GRID_ROWS,
    ensures
        forall|i: int|
            0 <= i < grid_cells(pieces, avoid, bare, m).len() ==> (#[trigger] grid_cells(pieces, avoid, bare, m)[i]).0
                < GRID_COLS && grid_cells(pieces, avoid, bare, m)[i].1 < GRID_ROWS,
    decreases m,
{
    if m > 0 {
        lemma_grid_in_grid(pieces, avoid, bare, m - 1);
        lemma_row_in_grid(pieces, avoid, bare, m - 1, GRID_COLS as int);
        let a = grid_cells(pieces, avoid, bare, m - 1);
        let b = row_cells(pieces, avoid, bare, m - 1, GRID_COLS as int);
        assert forall|i: int| 0 <= i < (a + b).len() implies (#[trigger] (a + b)[i]).0 < GRID_COLS && (a + b)[i].1
            < GRID_ROWS by {
            if i < a.len() {
                assert((a + b)[i] == a[i]);
            } else {
                assert((a + b)[i] == b[i - a.len()]);
            }
        }
    }
}

/// Wherever the rat is sent, it lands on a cell of the grid.
pub proof fn lemma_chosen_in_grid(h: u64, pieces: Seq<Piece>, avoid: Option<(u8, u8)>)
    ensures
        spec_choose_cell(h, pieces, avoid) matches Some(c) ==> c.0 < GRID_COLS && c.1 < GRID_ROWS,
{
    lemma_grid_in_grid(pieces, avoid, true, GRID_ROWS as int);
    lemma_grid_in_grid(pieces, avoid, false, GRID_ROWS as int);
    lemma_grid_len(pieces, avoid, true, GRID_ROWS as int);
    lemma_grid_len(pieces, avoid, false, GRID_ROWS as int);
    let empty = grid_cells(pieces, avoid, true, GRID_ROWS as int);
    let any = grid_cells(pieces, avoid, false, GRID_ROWS as int);
    let pool = if empty.len() > 0 {
        empty
    } else {
        any
    };
    if pool.len() > 0 {
        let k = (h % (pool.len() as u64)) as int;
        assert(0 <= k < pool.len());
        assert(pool[k].0 < GRID_COLS && pool[k].1 < GRID_ROWS);
    }
}

/// Wherever the couch draws the rat, it stays within byte range.
proof fn lemma_drift_in_range(h: u64, pieces: Seq<Piece>, couch: Seq<(u8, u8)>, cell: (u8, u8))
    requires
        cell.0 < 255,
        cell.1 < 255,
    ensures
        spec_couch_step(h, pieces, couch, cell) matches Some(c) ==> c.0 < 255 && c.1 < 255,
{
    let pool = drift_pool(pieces, couch, cell);
    if pool.len() > 0 {
        let k = (h % (pool.len() as u64)) as int;
        assert(pool.len() <= 4);
        assert(0 <= k < pool.len());
    }
}

/// A row holds at most its columns, and a grid at most its cells.
proof fn lemma_grid_len(pieces: Seq<Piece>, avoid: Option<(u8, u8)>, bare: bool, m: int)
    requires
        0 <= m,
    ensures
        grid_cells(pieces, avoid, bare, m).len() <= m * GRID_COLS,
    decreases m,
{
    if m > 0 {
        lemma_grid_len(pieces, avoid, bare, m - 1);
        lemma_row_len(pieces, avoid, bare, m - 1, GRID_COLS as int);
    }
}

/// A row holds at most its columns.
proof fn lemma_row_len(pieces: Seq<Piece>, avoid: Option<(u8, u8)>, bare: bool, y: int, n: int)
    requires
        0 <= n,
    ensures
        row_cells(pieces, avoid, bare, y, n).len() <= n,
    decreases n,
{
    if n > 0 {
        lemma_row_len(pieces, avoid, bare, y, n - 1);
    }
}

/// Deterministically pick the rat's cell from hash `h`: empty cells
/// preferred (the rat likes bare floor), lamplit cells refused outright
/// (rats fear light), the cell it is leaving excluded, candidates in
/// row-major order indexed by the hash. Only a full hold makes it perch
/// on a piece, and `None` — every candidate lit — makes it skip the beat.
pub fn choose_cell(h: u64, pieces: &[Piece], avoid: Option<(u8, u8)>) -> (r: Option<(u8, u8)>)
    requires
        berths_in_range(pieces@),
    ensures
        r == spec_choose_cell(h, pieces@, avoid),
{
    let mut empty: Vec<(u8, u8)> = Vec::new();
    let mut any: Vec<(u8, u8)> = Vec::new();
    let mut y: u8 = 0;
    while y < GRID_ROWS
        invariant
            y <= GRID_ROWS,
            berths_in_range(pieces@),
            empty@ == grid_cells(pieces@, avoid, true, y as int),
            any@ == grid_cells(pieces@, avoid, false, y as int),
        decreases GRID_ROWS - y,
    {
        let ghost empty0 = empty@;
        let ghost any0 = any@;
        let mut x: u8 = 0;
        while x < GRID_COLS
            invariant
                x <= GRID_COLS,
                y < GRID_ROWS,
                berths_in_range(pieces@),
                empty0 == grid_cells(pieces@, avoid, true, y as int),
                any0 == grid_cells(pieces@, avoid, false, y as int),
                empty@ == empty0 + row_cells(pieces@, avoid, true, y as int, x as int),
                any@ == any0 + row_cells(pieces@, avoid, false, y as int, x as int),
            decreases GRID_COLS - x,
        {
            if RATS_ROOM.surface_of(x, y).is_some() && avoid != Some((x, y)) && !lit_adjacent(
                RATS_ROOM,
                pieces,
                CABIN,
                x,
                y,
            ) {
                any.push((x, y));
                if !covered(pieces, x, y) {
                    empty.push((x, y));
                }
            }
            proof {
                assert(empty@ =~= empty0 + row_cells(pieces@, avoid, true, y as int, x + 1));
                assert(any@ =~= any0 + row_cells(pieces@, avoid, false, y as int, x + 1));
            }
            x = x + 1;
        }
        y = y + 1;
    }
    proof {
        lemma_grid_len(pieces@, avoid, true, GRID_ROWS as int);
        lemma_grid_len(pieces@, avoid, false, GRID_ROWS as int);
    }
    let pool = if empty.len() > 0 {
        &empty
    } else {
        &any
    };
    if pool.len() == 0 {
        return None;
    }
    Some(pool[(h % pool.len() as u64) as usize])
}


/// The cells of row `y` from column `x`, `n` wide, left to right.
pub open spec fn span_row(x: int, y: int, n: int) -> Seq<(u8, u8)>
    decreases n,
{
    if n <= 0 {
        Seq::empty()
    } else {
        span_row(x, y, n - 1).push(((x + n - 1) as u8, y as u8))
    }
}

/// The cells of a `w`-by-`h` face anchored at `(x, y)`, row by row.
pub open spec fn span_cells(x: int, y: int, w: int, h: int) -> Seq<(u8, u8)>
    decreases h,
{
    if h <= 0 {
        Seq::empty()
    } else {
        span_cells(x, y, w, h - 1) + span_row(x, y + h - 1, w)
    }
}

/// The cabin cells one piece contributes to the couch: a couch's face,
/// nothing from anything else.
pub open spec fn couch_share(piece: Piece) -> Seq<(u8, u8)> {
    match piece.loc {
        Loc::Hold { room, x, y } => if piece.kind == Kind::Couch && room == CABIN {
            span_cells(x as int, y as int, piece.kind.spec_extent().0 as int, piece.kind.spec_extent().2 as int)
        } else {
            Seq::empty()
        },
        _ => Seq::empty(),
    }
}

/// The couch cells of the first `n` pieces, in stowage order.
pub open spec fn couch_upto(pieces: Seq<Piece>, n: int) -> Seq<(u8, u8)>
    decreases n,
{
    if n <= 0 {
        Seq::empty()
    } else {
        couch_upto(pieces, n - 1) + couch_share(pieces[n - 1])
    }
}

/// Cabin cells under stowed couches, in stowage order. Empty when no
/// couch is aboard. Derived fresh each beat: the couch is the pieces'
/// state, not the rat's.
pub fn couch_cells(pieces: &[Piece]) -> (r: Vec<(u8, u8)>)
    requires
        berths_in_range(pieces@),
    ensures
        r@ == couch_upto(pieces@, pieces@.len() as int),
{
    let mut cells: Vec<(u8, u8)> = Vec::new();
    let mut i: usize = 0;
    while i < pieces.len()
        invariant
            i <= pieces@.len(),
            berths_in_range(pieces@),
            cells@ == couch_upto(pieces@, i as int),
        decreases pieces@.len() - i,
    {
        let piece = pieces[i];
        assert(piece == pieces@[i as int]);
        if piece.kind == Kind::Couch {
            if let Loc::Hold { room, x, y } = piece.loc {
                if room == CABIN {
                    let (w, h) = piece.kind.upright();
                    proof {
                        lemma_extent_small(piece.kind);
                    }
                    let ghost base = cells@;
                    let mut dy: u8 = 0;
                    while dy < h
                        invariant
                            dy <= h,
                            h <= 2,
                            w <= 2,
                            x < 250,
                            y < 250,
                            cells@ == base + span_cells(x as int, y as int, w as int, dy as int),
                        decreases h - dy,
                    {
                        let ghost row0 = cells@;
                        let mut dx: u8 = 0;
                        while dx < w
                            invariant
                                dx <= w,
                                dy < h,
                                h <= 2,
                                w <= 2,
                                x < 250,
                                y < 250,
                                cells@ == row0 + span_row(x as int, (y + dy) as int, dx as int),
                            decreases w - dx,
                        {
                            cells.push((x + dx, y + dy));
                            assert(cells@ =~= row0 + span_row(x as int, (y + dy) as int, dx + 1));
                            dx = dx + 1;
                        }
                        assert(cells@ =~= base + span_cells(x as int, y as int, w as int, dy + 1));
                        dy = dy + 1;
                    }
                }
            }
        }
        assert(cells@ =~= couch_upto(pieces@, i + 1));
        i = i + 1;
    }
    cells
}

/// Manhattan distance between two cells.
pub open spec fn manhattan(a: (u8, u8), b: (u8, u8)) -> int {
    (if a.0 >= b.0 {
        a.0 - b.0
    } else {
        b.0 - a.0
    }) + (if a.1 >= b.1 {
        a.1 - b.1
    } else {
        b.1 - a.1
    })
}

/// Manhattan distance from `cell` to the nearest of the first `n` couch
/// cells; `u32::MAX` when there are none.
pub open spec fn gap_upto(couch: Seq<(u8, u8)>, cell: (u8, u8), n: int) -> int
    decreases n,
{
    if n <= 0 {
        u32::MAX as int
    } else {
        let rest = gap_upto(couch, cell, n - 1);
        let d = manhattan(cell, couch[n - 1]);
        if d < rest {
            d
        } else {
            rest
        }
    }
}

/// Manhattan distance from `cell` to the nearest couch cell.
pub fn couch_gap(couch: &[(u8, u8)], cell: (u8, u8)) -> (r: u32)
    ensures
        r == gap_upto(couch@, cell, couch@.len() as int),
{
    let mut best: u32 = u32::MAX;
    let mut i: usize = 0;
    while i < couch.len()
        invariant
            i <= couch@.len(),
            best == gap_upto(couch@, cell, i as int),
        decreases couch@.len() - i,
    {
        let (x, y) = couch[i];
        let dx: u32 = if cell.0 >= x {
            (cell.0 - x) as u32
        } else {
            (x - cell.0) as u32
        };
        let dy: u32 = if cell.1 >= y {
            (cell.1 - y) as u32
        } else {
            (y - cell.1) as u32
        };
        if dx + dy < best {
            best = dx + dy;
        }
        i = i + 1;
    }
    best
}

/// Whether the rat may drift onto `cell`: nearer the couch than `here`,
/// and unlit.
pub open spec fn drift_ok(pieces: Seq<Piece>, couch: Seq<(u8, u8)>, here: int, cell: (u8, u8)) -> bool {
    gap_upto(couch, cell, couch.len() as int) < here && !spec_lit(pieces, cell.0 as int, cell.1 as int)
}

/// `pool` with `c` appended when `ok`.
pub open spec fn add_if(pool: Seq<(u8, u8)>, ok: bool, c: (u8, u8)) -> Seq<(u8, u8)> {
    if ok {
        pool.push(c)
    } else {
        pool
    }
}

/// The neighbours of `cell` the rat may drift onto, in up, down, left,
/// right order.
pub open spec fn drift_pool(pieces: Seq<Piece>, couch: Seq<(u8, u8)>, cell: (u8, u8)) -> Seq<(u8, u8)> {
    let (cx, cy) = cell;
    let here = gap_upto(couch, cell, couch.len() as int);
    let up = (cx, (cy - 1) as u8);
    let down = (cx, (cy + 1) as u8);
    let left = ((cx - 1) as u8, cy);
    let right = ((cx + 1) as u8, cy);
    let p1 = if cy > 0 {
        add_if(Seq::empty(), drift_ok(pieces, couch, here, up), up)
    } else {
        Seq::empty()
    };
    let p2 = if cy + 1 < GRID_ROWS {
        add_if(p1, drift_ok(pieces, couch, here, down), down)
    } else {
        p1
    };
    let p3 = if cx > 0 {
        add_if(p2, drift_ok(pieces, couch, here, left), left)
    } else {
        p2
    };
    if cx + 1 < GRID_COLS {
        add_if(p3, drift_ok(pieces, couch, here, right), right)
    } else {
        p3
    }
}

/// The couch drift's answer: among the neighbours that close on the
/// couch and are unlit, the `h`-th, cycling; nowhere if none.
pub open spec fn spec_couch_step(h: u64, pieces: Seq<Piece>, couch: Seq<(u8, u8)>, cell: (u8, u8)) -> Option<(u8, u8)> {
    let pool = drift_pool(pieces, couch, cell);
    if pool.len() == 0 {
        None
    } else {
        Some(pool[(h % (pool.len() as u64)) as int])
    }
}

/// Whether the rat may drift onto neighbour `c`.
fn drifts_to(pieces: &[Piece], couch: &[(u8, u8)], here: u32, c: (u8, u8)) -> (r: bool)
    requires
        c.0 < 255,
        c.1 < 255,
    ensures
        r == drift_ok(pieces@, couch@, here as int, c),
{
    couch_gap(couch, c) < here && !lit_adjacent(RATS_ROOM, pieces, CABIN, c.0, c.1)
}

/// The couch drift: one orthogonal step that shrinks the Manhattan
/// distance to the nearest couch cell, the hash picking among the legal
/// candidates (fixed up/down/left/right order). Light fear still applies;
/// cargo underfoot does not. `None` when lamplight or geometry blocks
/// every step: the rat waits out the beat where it is.
#[verifier::rlimit(40)]
pub fn couch_step(h: u64, pieces: &[Piece], couch: &[(u8, u8)], cell: (u8, u8)) -> (r: Option<(u8, u8)>)
    requires
        cell.0 < 255,
        cell.1 < 255,
    ensures
        r == spec_couch_step(h, pieces@, couch@, cell),
{
    let (cx, cy) = cell;
    let here = couch_gap(couch, cell);
    let mut pool: Vec<(u8, u8)> = Vec::new();
    if cy > 0 {
        let c = (cx, cy - 1);
        if drifts_to(pieces, couch, here, c) {
            pool.push(c);
        }
    }
    let ghost p1 = pool@;
    if cy + 1 < GRID_ROWS {
        let c = (cx, cy + 1);
        if drifts_to(pieces, couch, here, c) {
            pool.push(c);
        }
    }
    let ghost p2 = pool@;
    if cx > 0 {
        let c = (cx - 1, cy);
        if drifts_to(pieces, couch, here, c) {
            pool.push(c);
        }
    }
    let ghost p3 = pool@;
    if cx + 1 < GRID_COLS {
        let c = (cx + 1, cy);
        if drifts_to(pieces, couch, here, c) {
            pool.push(c);
        }
    }
    proof {
        assert(pool@ == drift_pool(pieces@, couch@, cell));
    }
    if pool.len() == 0 {
        return None;
    }
    Some(pool[(h % pool.len() as u64) as usize])
}

/// Cells between `c` and the span `[start, start + len)` on one axis.
pub open spec fn spec_axis_gap(c: int, start: int, len: int) -> int {
    if c < start {
        start - c
    } else if c >= start + len {
        c - (start + len - 1)
    } else {
        0
    }
}

/// Cells between `c` and the span `[start, start + len)` on one axis.
pub fn axis_gap(c: u8, start: u8, len: u8) -> (r: u8)
    requires
        start + len <= 255,
        len >= 1,
    ensures
        r == spec_axis_gap(c as int, start as int, len as int),
{
    if c < start {
        start - c
    } else if c >= start + len {
        c - (start + len - 1)
    } else {
        0
    }
}

/// How far a piece lies from cell `(cx, cy)` for the rat's teeth: the
/// Manhattan distance to the closest cell of its face, for cabin berths
/// in a room cell or laid; `None` for cubbies and other rooms.
pub open spec fn bite_distance(piece: Piece, cx: u8, cy: u8) -> Option<int> {
    match piece.loc {
        Loc::Hold { room, x, y } | Loc::Laid { room, x, y } => if room == CABIN {
            Some(
                spec_axis_gap(cx as int, x as int, piece.kind.spec_extent().0 as int) + spec_axis_gap(
                    cy as int,
                    y as int,
                    piece.kind.spec_extent().2 as int,
                ),
            )
        } else {
            None
        },
        Loc::Stow { .. } => None,
    }
}

/// Whether piece `a` is strictly nearer the rat than piece `b` — by
/// distance, then by lower id.
pub open spec fn nearer(a: Piece, b: Piece, cx: u8, cy: u8) -> bool {
    let da = bite_distance(a, cx, cy)->0;
    let db = bite_distance(b, cx, cy)->0;
    da < db || (da == db && a.id < b.id)
}

/// Whether index `i` is the rat's target: a reachable piece no later
/// piece beats, and no earlier piece ties or beats.
pub open spec fn is_nearest(pieces: Seq<Piece>, cx: u8, cy: u8, i: int) -> bool {
    &&& 0 <= i < pieces.len()
    &&& bite_distance(pieces[i], cx, cy) is Some
    &&& forall|j: int|
        0 <= j < pieces.len() && j != i && #[trigger] bite_distance(pieces[j], cx, cy) is Some ==> (if j < i {
            nearer(pieces[i], pieces[j], cx, cy)
        } else {
            !nearer(pieces[j], pieces[i], cx, cy)
        })
}

/// How far one piece lies from the rat, if it is within reach of its
/// teeth.
fn bite(piece: &Piece, cx: u8, cy: u8) -> (r: Option<u32>)
    requires
        match piece.loc {
            Loc::Hold { x, y, .. } | Loc::Laid { x, y, .. } => x < 250 && y < 250,
            Loc::Stow { .. } => true,
        },
    ensures
        match bite_distance(*piece, cx, cy) {
            Some(d) => r == Some(d as u32) && 0 <= d < 600,
            None => r is None,
        },
{
    let (x, y) = match piece.loc {
        Loc::Hold { room, x, y } | Loc::Laid { room, x, y } => if room == CABIN {
            (x, y)
        } else {
            return None;
        },
        Loc::Stow { .. } => return None,
    };
    let (w, h) = piece.kind.upright();
    proof {
        lemma_extent_small(piece.kind);
    }
    Some(axis_gap(cx, x, w) as u32 + axis_gap(cy, y, h) as u32)
}

/// THE nibble target rule: the stowed or laid piece nearest the rat's
/// cell by Manhattan distance to the closest cell of its footprint (zero
/// when the rat perches on it), ties broken by the lower piece id, the
/// first such piece when even that ties. Cubby cargo never counts.
/// `None` when nothing is reachable, which skips the nibble.
#[verifier::rlimit(50)]
pub fn nearest_hold_piece(pieces: &[Piece], cell: (u8, u8)) -> (r: Option<usize>)
    requires
        berths_in_range(pieces@),
    ensures
        r matches Some(i) ==> is_nearest(pieces@, cell.0, cell.1, i as int),
        r is None ==> forall|j: int| 0 <= j < pieces@.len() ==> #[trigger] bite_distance(pieces@[j], cell.0, cell.1) is None,
{
    let (cx, cy) = cell;
    let mut best: Option<usize> = None;
    let mut best_d: u32 = 0;
    let mut i: usize = 0;
    while i < pieces.len()
        invariant
            i <= pieces@.len(),
            berths_in_range(pieces@),
            best is None ==> forall|j: int| 0 <= j < i ==> #[trigger] bite_distance(pieces@[j], cx, cy) is None,
            best matches Some(b) ==> b < i && bite_distance(pieces@[b as int], cx, cy) == Some(best_d as int),
            best matches Some(b) ==> forall|j: int|
                0 <= j < b && #[trigger] bite_distance(pieces@[j], cx, cy) is Some ==> nearer(
                    pieces@[b as int],
                    pieces@[j],
                    cx,
                    cy,
                ),
            best matches Some(b) ==> forall|j: int|
                b < j < i && #[trigger] bite_distance(pieces@[j], cx, cy) is Some ==> !nearer(
                    pieces@[j],
                    pieces@[b as int],
                    cx,
                    cy,
                ),
        decreases pieces@.len() - i,
    {
        let piece = pieces[i];
        assert(piece == pieces@[i as int]);
        if let Some(d) = bite(&piece, cx, cy) {
            match best {
                None => {
                    best = Some(i);
                    best_d = d;
                },
                Some(b) => {
                    let other = pieces[b];
                    if d < best_d || (d == best_d && piece.id < other.id) {
                        proof {
                            assert forall|j: int|
                                0 <= j < i && #[trigger] bite_distance(pieces@[j], cx, cy) is Some implies nearer(
                                pieces@[i as int],
                                pieces@[j],
                                cx,
                                cy,
                            ) by {
                                if j < b {
                                    assert(nearer(pieces@[b as int], pieces@[j], cx, cy));
                                } else if j > b {
                                    assert(!nearer(pieces@[j], pieces@[b as int], cx, cy));
                                }
                            }
                        }
                        best = Some(i);
                        best_d = d;
                    }
                },
            }
        }
        i = i + 1;
    }
    best
}


/// What the rat does that a person can hear.
#[derive(Clone, Copy, Debug, PartialEq, Eq, Structural)]
pub enum RatSignal {
    /// A stowaway boarded.
    Aboard,
    /// It left the ship.
    Left,
    /// It hopped; loudness `0.2 + roll / 1000`.
    Skitter { roll: u64 },
    /// It bit a piece.
    Nibble,
    /// A press chased it.
    Chased,
}

/// The latest tick the rat's schedules reason about; later clocks are
/// beyond any run the game can play.
pub const TICK_REACH: u64 = 0xFFFF_FFFF_FFFF_0000;

/// The stowaway a departure boards, if one does: a crowded, crate-free,
/// rat-free hold, the one-in-four roll, and an unlit cell to start in.
pub open spec fn boarding(seed: u64, legs: u64, tick: u64, pieces: Seq<Piece>, suspicious: bool) -> Option<Rat> {
    if suspicious || floor_total(pieces, pieces.len() as int) < CROWDED_CELLS {
        None
    } else if spec_splitmix(seed ^ SALT_BOARD, legs) % BOARD_CHANCE != 0 {
        None
    } else {
        let h = spec_splitmix(seed ^ SALT_MOVE, tick);
        match spec_choose_cell(h, pieces, None) {
            None => None,
            Some(cell) => Some(
                Rat {
                    cell,
                    prev_cell: cell,
                    moved_at: tick,
                    next_move: (tick + MOVE_BASE + (h >> 16u64) % MOVE_JITTER) as u64,
                    next_nibble: (tick + NIBBLE_BASE + (h >> 32u64) % NIBBLE_JITTER) as u64,
                    chases: 0,
                },
            ),
        }
    }
}

/// Where a hop takes the rat on hash `h`: anywhere unlit when no couch is
/// aboard or it is already on one, one step toward the couch otherwise.
pub open spec fn hop_target(h: u64, pieces: Seq<Piece>, cell: (u8, u8)) -> Option<(u8, u8)> {
    let couch = couch_upto(pieces, pieces.len() as int);
    if couch.len() == 0 || couch.contains(cell) {
        spec_choose_cell(h, pieces, Some(cell))
    } else {
        spec_couch_step(h, pieces, couch, cell)
    }
}

/// The rat after a relocation beat at `tick`, and what it made heard.
pub open spec fn after_hop(seed: u64, tick: u64, pieces: Seq<Piece>, rat: Rat) -> (Rat, Seq<RatSignal>) {
    let h = spec_splitmix(seed ^ SALT_MOVE, tick);
    let couch = couch_upto(pieces, pieces.len() as int);
    let (moved, said) = match hop_target(h, pieces, rat.cell) {
        Some(cell) => (
            Rat { prev_cell: rat.cell, cell, moved_at: tick, ..rat },
            seq![RatSignal::Skitter { roll: (h >> 40u64) % 350 }],
        ),
        None => (rat, Seq::empty()),
    };
    let laze: u64 = if couch.contains(moved.cell) {
        NAP_LAZE
    } else {
        1
    };
    (Rat { next_move: (tick + laze * (MOVE_BASE + (h >> 16u64) % MOVE_JITTER)) as u64, ..moved }, said)
}

/// Whether the rat at `cell` may bite: not napping on the couch, and not
/// in lamplight.
pub open spec fn may_bite(pieces: Seq<Piece>, cell: (u8, u8)) -> bool {
    !couch_upto(pieces, pieces.len() as int).contains(cell) && !spec_lit(pieces, cell.0 as int, cell.1 as int)
}

/// Whether a docking sends the rat ashore: one aboard, and a hold sparse
/// enough to have nothing to eat.
pub open spec fn goes_ashore(rat: Option<Rat>, pieces: Seq<Piece>) -> bool {
    rat is Some && floor_total(pieces, pieces.len() as int) <= SPARSE_CELLS
}

/// How a due nibble leaves a rat `r1` aboard with `pieces` and `cues`:
/// the schedule re-armed, and the nearest piece bitten unless the rat
/// naps on the couch or sits in lamplight.
pub open spec fn nibbled(
    seed: u64,
    tick: u64,
    pieces: Seq<Piece>,
    cues: Seq<RatSignal>,
    r1: Rat,
    rat: Rat,
    pieces_after: Seq<Piece>,
    cues_after: Seq<RatSignal>,
) -> bool {
    let h = spec_splitmix(seed ^ SALT_NIBBLE, tick);
    &&& rat == Rat { next_nibble: (tick + NIBBLE_BASE + h % NIBBLE_JITTER) as u64, ..r1 }
    &&& if may_bite(pieces, rat.cell) && exists|i: int| #[trigger] is_nearest(pieces, rat.cell.0, rat.cell.1, i) {
        exists|i: int|
            #[trigger] is_nearest(pieces, rat.cell.0, rat.cell.1, i) && pieces_after == pieces.update(
                i,
                Piece { gnawed: true, ..pieces[i] },
            ) && cues_after == cues.push(RatSignal::Nibble)
    } else {
        pieces_after == pieces && cues_after == cues
    }
}

/// How a tick leaves a rat `r0` that was aboard with `pieces` and
/// `cues`: a due hop taken, then a due nibble.
pub open spec fn ticked(
    seed: u64,
    tick: u64,
    pieces: Seq<Piece>,
    cues: Seq<RatSignal>,
    r0: Rat,
    rat: Option<Rat>,
    pieces_after: Seq<Piece>,
    cues_after: Seq<RatSignal>,
) -> bool {
    let (r1, hop) = if tick >= r0.next_move {
        after_hop(seed, tick, pieces, r0)
    } else {
        (r0, Seq::empty())
    };
    if tick >= r1.next_nibble {
        rat matches Some(r2) && nibbled(seed, tick, pieces, cues + hop, r1, r2, pieces_after, cues_after)
    } else {
        rat == Some(r1) && pieces_after == pieces && cues_after == cues + hop
    }
}

impl Rats {
    /// Called once per departure: a crowded, crate-free, rat-free hold
    /// rolls `1 / BOARD_CHANCE` on the `(seed, legs)` stream for a
    /// stowaway. It boards an empty cell when one exists (perching on
    /// cargo only in a completely full hold) with both schedules wound
    /// from the departure tick. Lamplit cells are never boarded.
    pub fn on_depart(
        &mut self,
        seed: u64,
        legs: u64,
        tick: u64,
        pieces: &[Piece],
        suspicious: bool,
        cues: &mut Vec<RatSignal>,
    )
        requires
            tick <= TICK_REACH,
            pieces@.len() < 0x1000_0000,
            berths_in_range(pieces@),
        ensures
            old(self).rat is Some ==> final(self).rat == old(self).rat && final(cues)@ == old(cues)@,
            old(self).rat is None ==> final(self).rat == boarding(seed, legs, tick, pieces@, suspicious)
                && final(cues)@ == old(cues)@ + if final(self).rat is Some {
                seq![RatSignal::Aboard]
            } else {
                Seq::empty()
            },
    {
        if self.rat.is_some() || suspicious || occupied_cells(pieces) < CROWDED_CELLS {
            return;
        }
        if splitmix(seed ^ SALT_BOARD, legs) % BOARD_CHANCE != 0 {
            return;
        }
        let h = splitmix(seed ^ SALT_MOVE, tick);
        let cell = match choose_cell(h, pieces, None) {
            Some(c) => c,
            None => return,
        };
        self.rat = Some(
            Rat {
                cell,
                prev_cell: cell,
                moved_at: tick,
                next_move: tick + MOVE_BASE + (h >> 16) % MOVE_JITTER,
                next_nibble: tick + NIBBLE_BASE + (h >> 32) % NIBBLE_JITTER,
                chases: 0,
            },
        );
        cues.push(RatSignal::Aboard);
    }

    /// Called once per arrival: a hold at [`SPARSE_CELLS`] or fewer
    /// floor cells under cargo sends the rat ashore — the ignore path.
    pub fn on_dock(&mut self, pieces: &[Piece], cues: &mut Vec<RatSignal>)
        requires
            pieces@.len() < 0x1000_0000,
        ensures
            goes_ashore(old(self).rat, pieces@) ==> final(self).rat is None && final(cues)@ == old(cues)@.push(
                RatSignal::Left,
            ),
            !goes_ashore(old(self).rat, pieces@) ==> final(self).rat == old(self).rat && final(cues)@ == old(cues)@,
    {
        if self.rat.is_some() && occupied_cells(pieces) <= SPARSE_CELLS {
            self.rat = None;
            cues.push(RatSignal::Left);
        }
    }

    /// Every unpaused tick: run the relocation and nibble schedules. A hop
    /// re-arms `next_move` and skitters quietly; a nibble re-arms
    /// `next_nibble` and gnaws the nearest stowed piece — permanently.
    /// A stowed couch turns free hops into single steps toward it, a rat
    /// on the couch naps — no gnawing, `next_move` re-armed [`NAP_LAZE`]
    /// times slower — and lamplight vetoes hop targets and nibbles alike.
    /// A beat with nowhere legal to go is skipped: the schedule re-arms
    /// and nothing else happens.
    pub fn on_tick(&mut self, seed: u64, tick: u64, pieces: &mut [Piece], cues: &mut Vec<RatSignal>)
        requires
            tick <= TICK_REACH,
            berths_in_range(old(pieces)@),
            old(self).rat matches Some(r) ==> r.cell.0 < 255 && r.cell.1 < 255,
        ensures
            old(self).rat is None ==> final(self).rat is None && final(pieces)@ == old(pieces)@ && final(cues)@
                == old(cues)@,
            old(self).rat matches Some(r0) ==> ticked(
                seed,
                tick,
                old(pieces)@,
                old(cues)@,
                r0,
                final(self).rat,
                final(pieces)@,
                final(cues)@,
            ),
    {
        let rat = match self.rat {
            Some(r) => r,
            None => return,
        };
        let ghost c0 = cues@;
        let ghost r0 = rat;
        let rat = if tick >= rat.next_move {
            let moved = hop(rat, seed, tick, pieces, cues);
            proof {
                let said = after_hop(seed, tick, pieces@, r0).1;
                assert(cues@ =~= c0 + said);
            }
            moved
        } else {
            proof {
                assert(cues@ =~= c0 + Seq::<RatSignal>::empty());
            }
            rat
        };
        if tick >= rat.next_nibble {
            let rat = nibble(rat, seed, tick, pieces, cues);
            self.rat = Some(rat);
        } else {
            self.rat = Some(rat);
        }
    }

    /// A press landed inside the rat's cell (`hit`): it is chased — it
    /// hops instantly, and the piece under it is not lifted. The third
    /// chase drives it off the ship. Returns whether the press was
    /// consumed; a press that missed the rat is left to the ordinary
    /// pointer paths.
    pub fn on_press(&mut self, seed: u64, tick: u64, hit: bool, pieces: &[Piece], cues: &mut Vec<RatSignal>) -> (r:
        bool)
        requires
            tick <= TICK_REACH,
            berths_in_range(pieces@),
            old(self).rat matches Some(rat) ==> rat.chases < CHASE_LIMIT,
        ensures
            r == (old(self).rat is Some && hit),
            !r ==> final(self).rat == old(self).rat && final(cues)@ == old(cues)@,
            r ==> {
                let rat = old(self).rat->0;
                let chases = (rat.chases + 1) as u8;
                if chases >= CHASE_LIMIT {
                    final(self).rat is None && final(cues)@ == old(cues)@ + seq![RatSignal::Chased, RatSignal::Left]
                } else {
                    let h = spec_splitmix(seed ^ SALT_CHASE, tick);
                    let moved = match spec_choose_cell(h, pieces@, Some(rat.cell)) {
                        Some(cell) => Rat { prev_cell: rat.cell, cell, moved_at: tick, chases, ..rat },
                        None => Rat { chases, ..rat },
                    };
                    final(self).rat == Some(
                        Rat { next_move: (tick + MOVE_BASE + (h >> 16u64) % MOVE_JITTER) as u64, ..moved },
                    ) && final(cues)@ == old(cues)@.push(RatSignal::Chased)
                }
            },
    {
        let mut rat = match self.rat {
            Some(r) => r,
            None => return false,
        };
        if !hit {
            return false;
        }
        rat.chases = rat.chases + 1;
        cues.push(RatSignal::Chased);
        if rat.chases >= CHASE_LIMIT {
            self.rat = None;
            cues.push(RatSignal::Left);
        } else {
            let h = splitmix(seed ^ SALT_CHASE, tick);
            if let Some(cell) = choose_cell(h, pieces, Some(rat.cell)) {
                rat.prev_cell = rat.cell;
                rat.cell = cell;
                rat.moved_at = tick;
            }
            rat.next_move = tick + MOVE_BASE + (h >> 16) % MOVE_JITTER;
            self.rat = Some(rat);
        }
        true
    }
}

/// One relocation beat: the rat hops where [`hop_target`] sends it (or
/// stays put), skitters if it moved, and re-arms its hop — lazily on the
/// couch.
fn hop(rat: Rat, seed: u64, tick: u64, pieces: &[Piece], cues: &mut Vec<RatSignal>) -> (r: Rat)
    requires
        tick <= TICK_REACH,
        berths_in_range(pieces@),
        rat.cell.0 < 255,
        rat.cell.1 < 255,
    ensures
        (r, final(cues)@.subrange(old(cues)@.len() as int, final(cues)@.len() as int)) == after_hop(
            seed,
            tick,
            pieces@,
            rat,
        ),
        final(cues)@.subrange(0, old(cues)@.len() as int) == old(cues)@,
        final(cues)@.len() >= old(cues)@.len(),
        r.cell.0 < 255,
        r.cell.1 < 255,
{
    let ghost start = cues@;
    let mut rat = rat;
    let h = splitmix(seed ^ SALT_MOVE, tick);
    let couch = couch_cells(pieces);
    let on_couch = contains_cell(&couch, rat.cell);
    let target = if couch.len() == 0 || on_couch {
        choose_cell(h, pieces, Some(rat.cell))
    } else {
        couch_step(h, pieces, couch.as_slice(), rat.cell)
    };
    proof {
        lemma_chosen_in_grid(h, pieces@, Some(rat.cell));
        lemma_drift_in_range(h, pieces@, couch@, rat.cell);
    }
    if let Some(cell) = target {
        rat.prev_cell = rat.cell;
        rat.cell = cell;
        rat.moved_at = tick;
        cues.push(RatSignal::Skitter { roll: (h >> 40) % 350 });
    }
    let step: u64 = MOVE_BASE + (h >> 16) % MOVE_JITTER;
    let wait: u64 = if contains_cell(&couch, rat.cell) {
        NAP_LAZE * step
    } else {
        step
    };
    rat.next_move = tick + wait;
    proof {
        let said = cues@.subrange(start.len() as int, cues@.len() as int);
        if target is Some {
            assert(said =~= seq![RatSignal::Skitter { roll: (h >> 40u64) % 350 }]);
        } else {
            assert(said =~= Seq::<RatSignal>::empty());
        }
        assert(cues@.subrange(0, start.len() as int) =~= start);
    }
    rat
}

/// One nibble beat: the schedule re-arms, and unless the rat naps on the
/// couch or sits in lamplight it bites the piece nearest its cell.
fn nibble(rat: Rat, seed: u64, tick: u64, pieces: &mut [Piece], cues: &mut Vec<RatSignal>) -> (r: Rat)
    requires
        tick <= TICK_REACH,
        berths_in_range(old(pieces)@),
        rat.cell.0 < 255,
        rat.cell.1 < 255,
    ensures
        nibbled(seed, tick, old(pieces)@, old(cues)@, rat, r, final(pieces)@, final(cues)@),
{
    let ghost p0 = pieces@;
    let ghost c0 = cues@;
    let mut rat = rat;
    let h = splitmix(seed ^ SALT_NIBBLE, tick);
    rat.next_nibble = tick + NIBBLE_BASE + h % NIBBLE_JITTER;
    let couch = couch_cells(pieces);
    let napping = contains_cell(&couch, rat.cell);
    if !napping && !lit_adjacent(RATS_ROOM, pieces, CABIN, rat.cell.0, rat.cell.1) {
        proof {
            assert((rat.cell.0 as int) as u8 == rat.cell.0);
            assert((rat.cell.1 as int) as u8 == rat.cell.1);
            assert(may_bite(p0, rat.cell));
        }
        match nearest_hold_piece(pieces, rat.cell) {
            Some(index) => {
                let mut bitten = pieces[index];
                bitten.gnawed = true;
                pieces[index] = bitten;
                cues.push(RatSignal::Nibble);
                proof {
                    assert(pieces@ =~= p0.update(index as int, Piece { gnawed: true, ..p0[index as int] }));
                    assert(is_nearest(p0, rat.cell.0, rat.cell.1, index as int));
                }
            },
            None => {},
        }
    } else {
        proof {
            if !napping {
                assert((rat.cell.0 as int) as u8 == rat.cell.0);
                assert((rat.cell.1 as int) as u8 == rat.cell.1);
            }
            assert(!may_bite(p0, rat.cell));
        }
    }
    rat
}

/// Whether `cells` holds `cell`.
fn contains_cell(cells: &Vec<(u8, u8)>, cell: (u8, u8)) -> (r: bool)
    ensures
        r == cells@.contains(cell),
{
    let mut i: usize = 0;
    while i < cells.len()
        invariant
            i <= cells@.len(),
            forall|j: int| 0 <= j < i ==> cells@[j] != cell,
        decreases cells@.len() - i,
    {
        let c = cells[i];
        if c.0 == cell.0 && c.1 == cell.1 {
            assert(cells@[i as int] == cell);
            return true;
        }
        i = i + 1;
    }
    false
}

} // verus!
