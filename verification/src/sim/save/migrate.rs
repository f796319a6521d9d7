//! Bringing an older document's board up to this build's rules: each
//! rule that changed what a cell means walks the pieces it strands to
//! the first berth their own room still has. A piece comes out standing
//! somewhere else, never gone.

use vstd::prelude::*;
use crate::sim::run::KNOWN_ALL;
use crate::sim::cargo::{
    KIND_COUNT, Kind, Loc, Piece, Violation, dressing_check, first_conflict, placement_check, placement_legal, spec_dressing,
    spec_footprint_surface, spec_placement, spec_plan,
};
use crate::sim::room::{COURSES, RoomId, RoomKind, Rooms, Surf, Tile};
use crate::sim::save::read::laid_are_coverings;

verus! {

/// Whether a piece of `kind` may take cell `(x, y)` of room `room`
/// against the board `pieces`: laid as a covering, or stood as cargo.
pub open spec fn takes(
    rooms: Rooms,
    pieces: Seq<Piece>,
    id: u32,
    kind: Kind,
    room: RoomId,
    laid: bool,
    x: u8,
    y: u8,
) -> bool {
    if laid {
        spec_dressing(rooms, pieces, id, kind, room, x, y) is Ok
    } else {
        spec_placement(rooms, pieces, id, kind, room, x, y) is Ok
    }
}

/// The first cell from `(x, y)` on, row by row through a `cols` by
/// `rows` grid, that the piece may take.
pub open spec fn first_taken(
    rooms: Rooms,
    pieces: Seq<Piece>,
    id: u32,
    kind: Kind,
    room: RoomId,
    laid: bool,
    cols: int,
    rows: int,
    x: int,
    y: int,
) -> Option<(u8, u8)>
    decreases rows - y, cols - x,
{
    if x < 0 || y < 0 || y >= rows || rows > 255 || cols > 255 {
        None
    } else if x >= cols {
        first_taken(rooms, pieces, id, kind, room, laid, cols, rows, 0, y + 1)
    } else if takes(rooms, pieces, id, kind, room, laid, x as u8, y as u8) {
        Some((x as u8, y as u8))
    } else {
        first_taken(rooms, pieces, id, kind, room, laid, cols, rows, x + 1, y)
    }
}

/// The first cell of a `cols` by `rows` grid, row by row, that the piece
/// may take.
fn first_berth(
    rooms: &Rooms,
    pieces: &[Piece],
    id: u32,
    kind: Kind,
    room: RoomId,
    laid: bool,
    cols: u8,
    rows: u8,
) -> (r: Option<(u8, u8)>)
    requires
        laid ==> kind.spec_covering(),
    ensures
        r == first_taken(*rooms, pieces@, id, kind, room, laid, cols as int, rows as int, 0, 0),
{
    let mut x: u8 = 0;
    let mut y: u8 = 0;
    while y < rows
        invariant
            x <= cols,
            y <= rows,
            laid ==> kind.spec_covering(),
            first_taken(*rooms, pieces@, id, kind, room, laid, cols as int, rows as int, 0, 0) == first_taken(
                *rooms,
                pieces@,
                id,
                kind,
                room,
                laid,
                cols as int,
                rows as int,
                x as int,
                y as int,
            ),
        decreases rows - y, cols - x,
    {
        if x >= cols {
            x = 0;
            y = y + 1;
        } else {
            let ok = if laid {
                dressing_check(rooms, pieces, id, kind, room, x, y).is_ok()
            } else {
                placement_legal(rooms, pieces, id, kind, room, x, y)
            };
            if ok {
                return Some((x, y));
            }
            x = x + 1;
        }
    }
    None
}

/// Piece `at` of the board walked to the first cell of its own room it
/// may take against the board as it stands; left where it is when it is
/// stowed, its room is gone, or no cell takes it.
pub open spec fn walk_one(rooms: Rooms, ps: Seq<Piece>, at: int) -> Seq<Piece> {
    if !(0 <= at < ps.len()) {
        ps
    } else {
        let p = ps[at];
        let (room, laid) = match p.loc {
            Loc::Hold { room, .. } => (room, false),
            Loc::Laid { room, .. } => (room, true),
            Loc::Stow { .. } => (0u8, false),
        };
        if p.loc is Stow {
            ps
        } else {
            match rooms.kind_at(room as int) {
                None => ps,
                Some(host) => match first_taken(
                    rooms,
                    ps,
                    p.id,
                    p.kind,
                    room,
                    laid,
                    host.spec_grid().0 as int,
                    host.spec_grid().1 as int,
                    0,
                    0,
                ) {
                    None => ps,
                    Some(c) => ps.update(
                        at,
                        Piece {
                            loc: if laid {
                                Loc::Laid { room, x: c.0, y: c.1 }
                            } else {
                                Loc::Hold { room, x: c.0, y: c.1 }
                            },
                            ..p
                        },
                    ),
                },
            }
        }
    }
}

/// The board after walking the pieces at the first `k` entries of
/// `stranded`, one after another.
pub open spec fn walked(rooms: Rooms, ps: Seq<Piece>, stranded: Seq<usize>, k: int) -> Seq<Piece>
    decreases k,
{
    if k <= 0 || k > stranded.len() {
        ps
    } else {
        walk_one(rooms, walked(rooms, ps, stranded, k - 1), stranded[k - 1] as int)
    }
}

/// Whether `b` is piece `a`, perhaps standing elsewhere in the same
/// room: same identity, kind, look and bite, the same layer, and a stowed
/// piece unmoved.
pub open spec fn same_piece_elsewhere(a: Piece, b: Piece) -> bool {
    &&& a.id == b.id
    &&& a.kind == b.kind
    &&& a.variant == b.variant
    &&& a.gnawed == b.gnawed
    &&& match (a.loc, b.loc) {
        (Loc::Hold { room: r1, .. }, Loc::Hold { room: r2, .. }) => r1 == r2,
        (Loc::Laid { room: r1, .. }, Loc::Laid { room: r2, .. }) => r1 == r2,
        (Loc::Stow { .. }, Loc::Stow { .. }) => a.loc == b.loc,
        _ => false,
    }
}

/// Whether board `b` is board `a` with pieces perhaps moved within their
/// rooms: nothing gained, nothing lost, nothing reordered.
pub open spec fn conserved(a: Seq<Piece>, b: Seq<Piece>) -> bool {
    &&& a.len() == b.len()
    &&& forall|i: int| 0 <= i < a.len() ==> same_piece_elsewhere(#[trigger] a[i], b[i])
}

/// **A walk conserves the board**: every piece comes out standing
/// somewhere in its own room, never gone, never duplicated, never
/// reordered.
pub proof fn lemma_walk_conserves(rooms: Rooms, ps: Seq<Piece>, stranded: Seq<usize>, k: int)
    ensures
        conserved(ps, walked(rooms, ps, stranded, k)),
    decreases k,
{
    if k <= 0 || k > stranded.len() {
        assert(forall|i: int| 0 <= i < ps.len() ==> same_piece_elsewhere(#[trigger] ps[i], ps[i]));
    } else {
        lemma_walk_conserves(rooms, ps, stranded, k - 1);
        let before = walked(rooms, ps, stranded, k - 1);
        let after = walked(rooms, ps, stranded, k);
        assert(after == walk_one(rooms, before, stranded[k - 1] as int));
        assert forall|i: int| 0 <= i < ps.len() implies same_piece_elsewhere(#[trigger] ps[i], after[i]) by {
            assert(same_piece_elsewhere(ps[i], before[i]));
        }
    }
}

/// A walk keeps every laid piece a covering.
proof fn lemma_walk_one_coverings(rooms: Rooms, ps: Seq<Piece>, at: int)
    requires
        laid_are_coverings(ps),
    ensures
        laid_are_coverings(walk_one(rooms, ps, at)),
{
    let after = walk_one(rooms, ps, at);
    assert forall|k: int| 0 <= k < after.len() && (#[trigger] after[k]).loc is Laid implies after[k].kind.spec_covering() by {
        assert(ps[k].loc is Laid);
    }
}

/// Walk piece `at` to the first cell of its own room it may take.
fn walk_piece(rooms: &Rooms, pieces: &mut Vec<Piece>, at: usize)
    requires
        laid_are_coverings(old(pieces)@),
    ensures
        final(pieces)@ == walk_one(*rooms, old(pieces)@, at as int),
        laid_are_coverings(final(pieces)@),
{
    proof {
        lemma_walk_one_coverings(*rooms, pieces@, at as int);
    }
    if at >= pieces.len() {
        return;
    }
    let p = pieces[at];
    let (room, laid) = match p.loc {
        Loc::Hold { room, .. } => (room, false),
        Loc::Laid { room, .. } => (room, true),
        Loc::Stow { .. } => return,
    };
    proof {
        if laid {
            assert(pieces@[at as int].loc is Laid);
        }
    }
    let host = match rooms.kind(room) {
        Some(h) => h,
        None => return,
    };
    let (cols, rows) = host.grid();
    match first_berth(rooms, pieces.as_slice(), p.id, p.kind, room, laid, cols, rows) {
        None => {},
        Some((x, y)) => {
            let loc = if laid {
                Loc::Laid { room, x, y }
            } else {
                Loc::Hold { room, x, y }
            };
            pieces.set(at, Piece { loc, ..p });
        },
    }
}

/// Walk each piece named in `stranded`, in that order, to the first
/// berth of its own room that the arbiter accepts against the board as
/// it then stands. A room with nowhere left for one leaves it standing:
/// a piece kept is worth more than a rule tidied.
pub fn walk_the_refused(rooms: &Rooms, pieces: &mut Vec<Piece>, stranded: &Vec<usize>)
    requires
        laid_are_coverings(old(pieces)@),
    ensures
        final(pieces)@ == walked(*rooms, old(pieces)@, stranded@, stranded@.len() as int),
        laid_are_coverings(final(pieces)@),
{
    let ghost start = pieces@;
    let mut k: usize = 0;
    while k < stranded.len()
        invariant
            k <= stranded@.len(),
            pieces@ == walked(*rooms, start, stranded@, k as int),
            laid_are_coverings(pieces@),
        decreases stranded@.len() - k,
    {
        walk_piece(rooms, pieces, stranded[k]);
        k = k + 1;
    }
}

/// The indices, in board order from `i` on, of the pieces `pred` picks.
pub open spec fn picked(ps: Seq<Piece>, pred: spec_fn(Piece) -> bool, i: int) -> Seq<usize>
    decreases ps.len() - i,
{
    if i < 0 || i >= ps.len() {
        Seq::empty()
    } else if pred(ps[i]) {
        seq![i as usize] + picked(ps, pred, i + 1)
    } else {
        picked(ps, pred, i + 1)
    }
}

/// Whether the arbiter, with nothing else aboard, refuses piece `p`
/// where it stands for standing in a room's own hardware.
pub open spec fn in_fixture(rooms: Rooms, p: Piece) -> bool {
    match p.loc {
        Loc::Hold { room, x, y } => spec_placement(rooms, Seq::empty(), p.id, p.kind, room, x, y) == Err::<
            (),
            Violation,
        >(Violation::Fixture),
        Loc::Laid { room, x, y } => spec_dressing(rooms, Seq::empty(), p.id, p.kind, room, x, y) == Err::<
            (),
            Violation,
        >(Violation::Fixture),
        Loc::Stow { .. } => false,
    }
}

/// Whether a room of this kind grew under the cargo of older documents:
/// the market, the parlor and the pump bay.
pub open spec fn spec_regrew(kind: Option<RoomKind>) -> bool {
    kind == Some(RoomKind::Trade) || kind == Some(RoomKind::Parlor) || kind == Some(RoomKind::Pump)
}

/// Whether piece `p` stands in a room that grew, where the arbiter, with
/// nothing else aboard, refuses it.
pub open spec fn in_grown_room(rooms: Rooms, p: Piece) -> bool {
    match p.loc {
        Loc::Hold { room, x, y } => spec_regrew(rooms.kind_at(room as int)) && spec_placement(
            rooms,
            Seq::empty(),
            p.id,
            p.kind,
            room,
            x,
            y,
        ) is Err,
        Loc::Laid { room, x, y } => spec_regrew(rooms.kind_at(room as int)) && spec_dressing(
            rooms,
            Seq::empty(),
            p.id,
            p.kind,
            room,
            x,
            y,
        ) is Err,
        Loc::Stow { .. } => false,
    }
}

/// Whether piece `p` stands in a room's own hardware.
fn stands_in_fixture(rooms: &Rooms, p: &Piece) -> (r: bool)
    requires
        p.loc is Laid ==> p.kind.spec_covering(),
    ensures
        r == in_fixture(*rooms, *p),
{
    let none: Vec<Piece> = Vec::new();
    assert(none@ =~= Seq::<Piece>::empty());
    match p.loc {
        Loc::Hold { room, x, y } => match placement_check(rooms, none.as_slice(), p.id, p.kind, room, x, y) {
            Err(Violation::Fixture) => true,
            _ => false,
        },
        Loc::Laid { room, x, y } => match dressing_check(rooms, none.as_slice(), p.id, p.kind, room, x, y) {
            Err(Violation::Fixture) => true,
            _ => false,
        },
        Loc::Stow { .. } => false,
    }
}

/// Whether a room kind's floor is wider or deeper than it was.
fn regrew(kind: Option<RoomKind>) -> (r: bool)
    ensures
        r == spec_regrew(kind),
{
    match kind {
        Some(RoomKind::Trade) => true,
        Some(RoomKind::Parlor) => true,
        Some(RoomKind::Pump) => true,
        _ => false,
    }
}

/// Whether piece `p` stands in a room that grew, refused where it is.
fn stands_refused_in_grown_room(rooms: &Rooms, p: &Piece) -> (r: bool)
    requires
        p.loc is Laid ==> p.kind.spec_covering(),
    ensures
        r == in_grown_room(*rooms, *p),
{
    let none: Vec<Piece> = Vec::new();
    assert(none@ =~= Seq::<Piece>::empty());
    match p.loc {
        Loc::Hold { room, x, y } => regrew(rooms.kind(room)) && placement_check(
            rooms,
            none.as_slice(),
            p.id,
            p.kind,
            room,
            x,
            y,
        ).is_err(),
        Loc::Laid { room, x, y } => regrew(rooms.kind(room)) && dressing_check(
            rooms,
            none.as_slice(),
            p.id,
            p.kind,
            room,
            x,
            y,
        ).is_err(),
        Loc::Stow { .. } => false,
    }
}

/// The indices of the pieces standing in a room's own hardware.
fn fixture_strays(rooms: &Rooms, pieces: &Vec<Piece>) -> (r: Vec<usize>)
    requires
        laid_are_coverings(pieces@),
    ensures
        r@ == picked(pieces@, |p: Piece| in_fixture(*rooms, p), 0),
{
    let ghost pred = |p: Piece| in_fixture(*rooms, p);
    let mut out: Vec<usize> = Vec::new();
    let mut i: usize = 0;
    while i < pieces.len()
        invariant
            i <= pieces@.len(),
            laid_are_coverings(pieces@),
            pred == (|p: Piece| in_fixture(*rooms, p)),
            out@ + picked(pieces@, pred, i as int) == picked(pieces@, pred, 0),
        decreases pieces@.len() - i,
    {
        proof {
            assert(pieces@[i as int].loc is Laid ==> pieces@[i as int].kind.spec_covering());
        }
        let ghost before = out@;
        if stands_in_fixture(rooms, &pieces[i]) {
            out.push(i);
            assert(before + picked(pieces@, pred, i as int) =~= out@ + picked(pieces@, pred, i + 1));
        }
        i = i + 1;
    }
    assert(out@ + picked(pieces@, pred, i as int) =~= out@);
    out
}

/// The indices of the pieces refused where they stand in a room that
/// grew.
fn grown_room_strays(rooms: &Rooms, pieces: &Vec<Piece>) -> (r: Vec<usize>)
    requires
        laid_are_coverings(pieces@),
    ensures
        r@ == picked(pieces@, |p: Piece| in_grown_room(*rooms, p), 0),
{
    let ghost pred = |p: Piece| in_grown_room(*rooms, p);
    let mut out: Vec<usize> = Vec::new();
    let mut i: usize = 0;
    while i < pieces.len()
        invariant
            i <= pieces@.len(),
            laid_are_coverings(pieces@),
            pred == (|p: Piece| in_grown_room(*rooms, p)),
            out@ + picked(pieces@, pred, i as int) == picked(pieces@, pred, 0),
        decreases pieces@.len() - i,
    {
        proof {
            assert(pieces@[i as int].loc is Laid ==> pieces@[i as int].kind.spec_covering());
        }
        let ghost before = out@;
        if stands_refused_in_grown_room(rooms, &pieces[i]) {
            out.push(i);
            assert(before + picked(pieces@, pred, i as int) =~= out@ + picked(pieces@, pred, i + 1));
        }
        i = i + 1;
    }
    assert(out@ + picked(pieces@, pred, i as int) =~= out@);
    out
}

/// Where cell `(x, y)` of a net written before a room kind grew lands
/// on the net it has now, given the floor it had: the starboard wall and
/// the ceiling slide by what the floor gained in width, the front wall
/// by what it gained in depth; the aft wall, the port wall and the floor
/// hold still.
pub open spec fn shifted(kind: RoomKind, x: u8, y: u8, was_w: u8, was_h: u8) -> (u8, u8) {
    let (w, h) = kind.spec_floor();
    if x >= COURSES + was_w {
        ((x + w - was_w) as u8, y)
    } else if y >= COURSES + was_h {
        (x, (y + h - was_h) as u8)
    } else {
        (x, y)
    }
}

/// Where a cell of an older net of `kind` lands on the net it has now:
/// the market was 6 by 5, the parlor 4 by 4, the pump bay 3 by 3; every
/// other kind kept its floor.
pub open spec fn spec_regrown(kind: RoomKind, x: u8, y: u8) -> (u8, u8) {
    match kind {
        RoomKind::Trade => shifted(kind, x, y, 6, 5),
        RoomKind::Parlor => shifted(kind, x, y, 4, 4),
        RoomKind::Pump => shifted(kind, x, y, 3, 3),
        _ => (x, y),
    }
}

/// Where a cell of an older net of `kind` lands on the net it has now.
fn regrown(kind: RoomKind, x: u8, y: u8) -> (r: (u8, u8))
    ensures
        r == spec_regrown(kind, x, y),
{
    let (was_w, was_h): (u8, u8) = match kind {
        RoomKind::Trade => (6, 5),
        RoomKind::Parlor => (4, 4),
        RoomKind::Pump => (3, 3),
        _ => return (x, y),
    };
    let (w, h) = kind.floor();
    if x >= COURSES + was_w {
        return (x - was_w + w, y);
    }
    if y >= COURSES + was_h {
        return (x, y - was_h + h);
    }
    (x, y)
}

/// Piece `p` with its berth translated onto its room's grown net.
pub open spec fn regrown_piece(rooms: Rooms, p: Piece) -> Piece {
    match p.loc {
        Loc::Hold { room, x, y } => match rooms.kind_at(room as int) {
            Some(host) => Piece { loc: Loc::Hold { room, x: spec_regrown(host, x, y).0, y: spec_regrown(host, x, y).1 }, ..p },
            None => p,
        },
        Loc::Laid { room, x, y } => match rooms.kind_at(room as int) {
            Some(host) => Piece { loc: Loc::Laid { room, x: spec_regrown(host, x, y).0, y: spec_regrown(host, x, y).1 }, ..p },
            None => p,
        },
        Loc::Stow { .. } => p,
    }
}

/// Every berth of the board translated onto its room's grown net.
pub open spec fn regrown_board(rooms: Rooms, ps: Seq<Piece>) -> Seq<Piece> {
    Seq::new(ps.len(), |i: int| regrown_piece(rooms, ps[i]))
}

/// The migration for documents written before three of the calling
/// rooms grew: every berth translated chart by chart, then what the
/// arbiter refuses in a room that grew walked to the first berth that
/// room still has.
pub open spec fn regrow_board(rooms: Rooms, ps: Seq<Piece>) -> Seq<Piece> {
    let t = regrown_board(rooms, ps);
    let st = picked(t, |p: Piece| in_grown_room(rooms, p), 0);
    walked(rooms, t, st, st.len() as int)
}

/// The migration for documents written before a room's own hardware
/// took its cells: what stands in a fixture walks to the first berth its
/// room still has.
pub open spec fn fixtures_board(rooms: Rooms, ps: Seq<Piece>) -> Seq<Piece> {
    let st = picked(ps, |p: Piece| in_fixture(rooms, p), 0);
    walked(rooms, ps, st, st.len() as int)
}

/// The board of a document of version `version`, brought up to this
/// build's rules: the oldest rule first, each migration only for the
/// documents written before it.
#[verifier::opaque]
pub open spec fn migrated(version: int, rooms: Rooms, ps: Seq<Piece>) -> Seq<Piece> {
    let grown = if version < 16 {
        regrow_board(rooms, ps)
    } else {
        ps
    };
    let offered = if version < 14 {
        doorway_board(rooms, grown)
    } else {
        grown
    };
    if version < 15 {
        fixtures_board(rooms, offered)
    } else {
        offered
    }
}

/// Translate every berth onto its room's grown net.
fn translate_berths(rooms: &Rooms, pieces: &mut Vec<Piece>)
    requires
        laid_are_coverings(old(pieces)@),
    ensures
        final(pieces)@ == regrown_board(*rooms, old(pieces)@),
        laid_are_coverings(final(pieces)@),
{
    let ghost start = pieces@;
    let mut i: usize = 0;
    while i < pieces.len()
        invariant
            i <= pieces@.len(),
            pieces@.len() == start.len(),
            laid_are_coverings(start),
            forall|j: int| 0 <= j < i ==> #[trigger] pieces@[j] == regrown_piece(*rooms, start[j]),
            forall|j: int| i <= j < pieces@.len() ==> #[trigger] pieces@[j] == start[j],
        decreases pieces@.len() - i,
    {
        let p = pieces[i];
        let moved = match p.loc {
            Loc::Hold { room, x, y } => match rooms.kind(room) {
                Some(host) => {
                    let (x, y) = regrown(host, x, y);
                    Piece { loc: Loc::Hold { room, x, y }, ..p }
                },
                None => p,
            },
            Loc::Laid { room, x, y } => match rooms.kind(room) {
                Some(host) => {
                    let (x, y) = regrown(host, x, y);
                    Piece { loc: Loc::Laid { room, x, y }, ..p }
                },
                None => p,
            },
            Loc::Stow { .. } => p,
        };
        pieces.set(i, moved);
        i = i + 1;
    }
    assert(pieces@ =~= regrown_board(*rooms, start));
    assert forall|k: int| 0 <= k < pieces@.len() && (#[trigger] pieces@[k]).loc is Laid implies pieces@[k].kind.spec_covering() by {
        assert(start[k].loc is Laid);
    }
}

/// Bring a board written before this build's rules up to them, for a
/// document of version `version` (13 to 15 here; 16 is this build's).
pub fn migrate_board(version: u8, rooms: &Rooms, pieces: &mut Vec<Piece>)
    requires
        laid_are_coverings(old(pieces)@),
    ensures
        final(pieces)@ == migrated(version as int, *rooms, old(pieces)@),
        laid_are_coverings(final(pieces)@),
{
    if version < 16 {
        translate_berths(rooms, pieces);
        let st = grown_room_strays(rooms, pieces);
        walk_the_refused(rooms, pieces, &st);
    }
    if version < 14 {
        walk_proposals_off_the_doorway(rooms, pieces);
    }
    if version < 15 {
        let st = fixture_strays(rooms, pieces);
        walk_the_refused(rooms, pieces, &st);
    }
    proof {
        reveal(migrated);
    }
}

/// A board of this build's own version needs no migration.
pub proof fn lemma_current_unmigrated(rooms: Rooms, ps: Seq<Piece>)
    ensures
        migrated(16, rooms, ps) == ps,
{
    reveal(migrated);
}

/// Conservation composes.
proof fn lemma_conserved_trans(a: Seq<Piece>, b: Seq<Piece>, c: Seq<Piece>)
    requires
        conserved(a, b),
        conserved(b, c),
    ensures
        conserved(a, c),
{
    assert forall|i: int| 0 <= i < a.len() implies same_piece_elsewhere(#[trigger] a[i], c[i]) by {
        assert(same_piece_elsewhere(a[i], b[i]));
        assert(same_piece_elsewhere(b[i], c[i]));
    }
}

/// **Migrating an older board conserves it**: every piece of the
/// document comes out, in its place in the board's order, standing in
/// its own room or stowed where it was: somewhere else, never gone.
pub proof fn lemma_migration_conserves(version: int, rooms: Rooms, ps: Seq<Piece>)
    ensures
        conserved(ps, migrated(version, rooms, ps)),
{
    reveal(migrated);
    let t = regrown_board(rooms, ps);
    assert(conserved(ps, t)) by {
        assert forall|i: int| 0 <= i < ps.len() implies same_piece_elsewhere(#[trigger] ps[i], t[i]) by {}
    }
    let st = picked(t, |p: Piece| in_grown_room(rooms, p), 0);
    lemma_walk_conserves(rooms, t, st, st.len() as int);
    lemma_conserved_trans(ps, t, regrow_board(rooms, ps));
    let grown = if version < 16 { regrow_board(rooms, ps) } else { ps };
    assert(conserved(ps, grown)) by {
        if version >= 16 {
            assert(forall|i: int| 0 <= i < ps.len() ==> same_piece_elsewhere(#[trigger] ps[i], ps[i]));
        }
    }
    let sd = picked(grown, |p: Piece| in_doorway(rooms, p), 0);
    lemma_offer_conserves(rooms, grown, sd, sd.len() as int);
    lemma_conserved_trans(ps, grown, doorway_board(rooms, grown));
    let offered = if version < 14 { doorway_board(rooms, grown) } else { grown };
    assert(conserved(ps, offered));
    let sf = picked(offered, |p: Piece| in_fixture(rooms, p), 0);
    lemma_walk_conserves(rooms, offered, sf, sf.len() as int);
    lemma_conserved_trans(ps, offered, fixtures_board(rooms, offered));
}

/// Whether two graphs hold the same kind of room in every slot.
pub open spec fn same_kinds(a: Rooms, b: Rooms) -> bool {
    forall|id: int| #[trigger] a.kind_at(id) == b.kind_at(id)
}

/// Two graphs with the same kinds see the same first conflict.
proof fn lemma_conflict_alike(
    a: Rooms,
    b: Rooms,
    pieces: Seq<Piece>,
    id: u32,
    host: RoomKind,
    room: RoomId,
    kind: Kind,
    fp: (u8, u8, u8, u8),
    standing: bool,
    i: int,
)
    requires
        same_kinds(a, b),
    ensures
        first_conflict(a, pieces, id, host, room, kind, fp, standing, i) == first_conflict(
            b,
            pieces,
            id,
            host,
            room,
            kind,
            fp,
            standing,
            i,
        ),
    decreases pieces.len() - i,
{
    if 0 <= i < pieces.len() {
        assert(a.kind_at(room as int) == b.kind_at(room as int));
        match pieces[i].loc {
            Loc::Hold { room: other, .. } => {
                assert(a.kind_at(other as int) == b.kind_at(other as int));
            },
            _ => {},
        }
        lemma_conflict_alike(a, b, pieces, id, host, room, kind, fp, standing, i + 1);
    }
}

/// Two graphs with the same kinds judge a cell alike.
proof fn lemma_takes_alike(a: Rooms, b: Rooms, pieces: Seq<Piece>, id: u32, kind: Kind, room: RoomId, laid: bool, x: u8, y: u8)
    requires
        same_kinds(a, b),
    ensures
        takes(a, pieces, id, kind, room, laid, x, y) == takes(b, pieces, id, kind, room, laid, x, y),
        spec_placement(a, pieces, id, kind, room, x, y) == spec_placement(b, pieces, id, kind, room, x, y),
        spec_dressing(a, pieces, id, kind, room, x, y) == spec_dressing(b, pieces, id, kind, room, x, y),
{
    assert(a.kind_at(room as int) == b.kind_at(room as int));
    if let Some(host) = a.kind_at(room as int) {
        if let Some(p) = spec_plan(host, kind, x as int, y as int) {
            if let Some(surf) = spec_footprint_surface(host, x as int, y as int, p.0 as int, p.1 as int) {
                lemma_conflict_alike(a, b, pieces, id, host, room, kind, (x, y, p.0, p.1), surf == Surf::Floor, 0);
            }
        }
    }
}

/// Two graphs with the same kinds find the same first cell.
proof fn lemma_first_taken_alike(
    a: Rooms,
    b: Rooms,
    pieces: Seq<Piece>,
    id: u32,
    kind: Kind,
    room: RoomId,
    laid: bool,
    cols: int,
    rows: int,
    x: int,
    y: int,
)
    requires
        same_kinds(a, b),
    ensures
        first_taken(a, pieces, id, kind, room, laid, cols, rows, x, y) == first_taken(
            b,
            pieces,
            id,
            kind,
            room,
            laid,
            cols,
            rows,
            x,
            y,
        ),
    decreases rows - y, cols - x,
{
    if x < 0 || y < 0 || y >= rows || rows > 255 || cols > 255 {
    } else if x >= cols {
        lemma_first_taken_alike(a, b, pieces, id, kind, room, laid, cols, rows, 0, y + 1);
    } else {
        lemma_takes_alike(a, b, pieces, id, kind, room, laid, x as u8, y as u8);
        lemma_first_taken_alike(a, b, pieces, id, kind, room, laid, cols, rows, x + 1, y);
    }
}

/// Two graphs with the same kinds walk a piece alike.
proof fn lemma_walk_one_alike(a: Rooms, b: Rooms, ps: Seq<Piece>, at: int)
    requires
        same_kinds(a, b),
    ensures
        walk_one(a, ps, at) == walk_one(b, ps, at),
{
    if 0 <= at < ps.len() {
        let p = ps[at];
        match p.loc {
            Loc::Hold { room, .. } => {
                assert(a.kind_at(room as int) == b.kind_at(room as int));
                if let Some(host) = a.kind_at(room as int) {
                    lemma_first_taken_alike(a, b, ps, p.id, p.kind, room, false, host.spec_grid().0 as int, host.spec_grid().1 as int, 0, 0);
                }
            },
            Loc::Laid { room, .. } => {
                assert(a.kind_at(room as int) == b.kind_at(room as int));
                if let Some(host) = a.kind_at(room as int) {
                    lemma_first_taken_alike(a, b, ps, p.id, p.kind, room, true, host.spec_grid().0 as int, host.spec_grid().1 as int, 0, 0);
                }
            },
            Loc::Stow { .. } => {},
        }
    }
}

/// Two graphs with the same kinds walk a board alike.
proof fn lemma_walked_alike(a: Rooms, b: Rooms, ps: Seq<Piece>, st: Seq<usize>, k: int)
    requires
        same_kinds(a, b),
    ensures
        walked(a, ps, st, k) == walked(b, ps, st, k),
    decreases k,
{
    if 0 < k <= st.len() {
        lemma_walked_alike(a, b, ps, st, k - 1);
        lemma_walk_one_alike(a, b, walked(a, ps, st, k - 1), st[k - 1] as int);
    }
}

/// Two graphs with the same kinds pick the same pieces from a board,
/// by either migration's test.
proof fn lemma_picked_alike(a: Rooms, b: Rooms, ps: Seq<Piece>, i: int)
    requires
        same_kinds(a, b),
    ensures
        picked(ps, |p: Piece| in_fixture(a, p), i) == picked(ps, |p: Piece| in_fixture(b, p), i),
        picked(ps, |p: Piece| in_grown_room(a, p), i) == picked(ps, |p: Piece| in_grown_room(b, p), i),
    decreases ps.len() - i,
{
    if 0 <= i < ps.len() {
        let p = ps[i];
        match p.loc {
            Loc::Hold { room, x, y } => {
                lemma_takes_alike(a, b, Seq::empty(), p.id, p.kind, room, false, x, y);
                assert(a.kind_at(room as int) == b.kind_at(room as int));
            },
            Loc::Laid { room, x, y } => {
                lemma_takes_alike(a, b, Seq::empty(), p.id, p.kind, room, true, x, y);
                assert(a.kind_at(room as int) == b.kind_at(room as int));
            },
            Loc::Stow { .. } => {},
        }
        assert(in_fixture(a, p) == in_fixture(b, p));
        assert(in_grown_room(a, p) == in_grown_room(b, p));
        lemma_picked_alike(a, b, ps, i + 1);
    }
}

/// **Migration reads the graph only through its kinds**: two graphs
/// with the same kind of room in every slot bring a board up to this
/// build's rules alike.
pub proof fn lemma_migrated_alike(version: int, a: Rooms, b: Rooms, ps: Seq<Piece>)
    requires
        same_kinds(a, b),
    ensures
        migrated(version, a, ps) == migrated(version, b, ps),
{
    reveal(migrated);
    let t = regrown_board(a, ps);
    assert(t =~= regrown_board(b, ps)) by {
        assert forall|i: int| 0 <= i < ps.len() implies t[i] == regrown_board(b, ps)[i] by {
            match ps[i].loc {
                Loc::Hold { room, .. } => { assert(a.kind_at(room as int) == b.kind_at(room as int)); },
                Loc::Laid { room, .. } => { assert(a.kind_at(room as int) == b.kind_at(room as int)); },
                Loc::Stow { .. } => {},
            }
        }
    }
    lemma_picked_alike(a, b, t, 0);
    let st = picked(t, |p: Piece| in_grown_room(a, p), 0);
    lemma_walked_alike(a, b, t, st, st.len() as int);
    let grown = if version < 16 { regrow_board(a, ps) } else { ps };
    lemma_doorway_picked_alike(a, b, grown, 0);
    let sd = picked(grown, |p: Piece| in_doorway(a, p), 0);
    lemma_offered_alike(a, b, grown, sd, sd.len() as int);
    let offered = if version < 14 { doorway_board(a, grown) } else { grown };
    lemma_picked_alike(a, b, offered, 0);
    let sf = picked(offered, |p: Piece| in_fixture(a, p), 0);
    lemma_walked_alike(a, b, offered, sf, sf.len() as int);
}


// ---------------------------------------------------------------------
// Proposals left in a doorway
// ---------------------------------------------------------------------

/// Whether cell `(x, y)` of a room of `kind` lay in the offer band as it
/// ran before the entry-path law, right across the room's front, doorway
/// and all, and is plain deck now.
pub open spec fn retired_offer(kind: RoomKind, x: u8, y: u8) -> bool {
    &&& (kind == RoomKind::Trade || kind == RoomKind::Parlor)
    &&& kind.spec_surface_of(x as int, y as int) matches Some(surf) && (surf == Surf::Front || ((surf == Surf::Floor
        || surf == Surf::Ceiling) && y + 2 >= COURSES + kind.spec_floor().1))
    &&& kind.spec_tile_of(x as int, y as int) != Some(Tile::Offer)
}

/// Whether piece `p` stands on such a cell.
pub open spec fn in_doorway(rooms: Rooms, p: Piece) -> bool {
    p.loc matches Loc::Hold { room, x, y } && rooms.kind_at(room as int) matches Some(k) && retired_offer(k, x, y)
}

/// Whether cell `(x, y)` of room `room` is on its offer area and takes
/// the piece as cargo.
pub open spec fn offer_takes(rooms: Rooms, pieces: Seq<Piece>, id: u32, kind: Kind, room: RoomId, x: u8, y: u8) -> bool {
    &&& rooms.kind_at(room as int) matches Some(k) && k.spec_tile_of(x as int, y as int) == Some(Tile::Offer)
    &&& spec_placement(rooms, pieces, id, kind, room, x, y) is Ok
}

/// The first cell from `(x, y)` on, row by row through a `cols` by `rows`
/// grid, of the offer area that takes the piece.
pub open spec fn first_offer(
    rooms: Rooms,
    pieces: Seq<Piece>,
    id: u32,
    kind: Kind,
    room: RoomId,
    cols: int,
    rows: int,
    x: int,
    y: int,
) -> Option<(u8, u8)>
    decreases rows - y, cols - x,
{
    if x < 0 || y < 0 || y >= rows || rows > 255 || cols > 255 {
        None
    } else if x >= cols {
        first_offer(rooms, pieces, id, kind, room, cols, rows, 0, y + 1)
    } else if offer_takes(rooms, pieces, id, kind, room, x as u8, y as u8) {
        Some((x as u8, y as u8))
    } else {
        first_offer(rooms, pieces, id, kind, room, cols, rows, x + 1, y)
    }
}

/// The first cell of the offer area of room `room`, in reading order,
/// that takes the piece.
fn offer_berth(rooms: &Rooms, pieces: &[Piece], id: u32, kind: Kind, room: RoomId, host: RoomKind, cols: u8, rows: u8) -> (r: Option<(u8, u8)>)
    requires
        rooms.kind_at(room as int) == Some(host),
    ensures
        r == first_offer(*rooms, pieces@, id, kind, room, cols as int, rows as int, 0, 0),
{
    let mut x: u8 = 0;
    let mut y: u8 = 0;
    while y < rows
        invariant
            x <= cols,
            y <= rows,
            rooms.kind_at(room as int) == Some(host),
            first_offer(*rooms, pieces@, id, kind, room, cols as int, rows as int, 0, 0) == first_offer(
                *rooms,
                pieces@,
                id,
                kind,
                room,
                cols as int,
                rows as int,
                x as int,
                y as int,
            ),
        decreases rows - y, cols - x,
    {
        if x >= cols {
            x = 0;
            y = y + 1;
        } else {
            if host.tile_of(x, y) == Some(Tile::Offer) && placement_legal(rooms, pieces, id, kind, room, x, y) {
                return Some((x, y));
            }
            x = x + 1;
        }
    }
    None
}

/// Piece `at` walked off a retired doorway cell onto the first berth of
/// its own room's offer area that takes it; left standing when none does.
pub open spec fn offer_one(rooms: Rooms, ps: Seq<Piece>, at: int) -> Seq<Piece> {
    if !(0 <= at < ps.len()) {
        ps
    } else {
        let p = ps[at];
        match p.loc {
            Loc::Hold { room, .. } => match rooms.kind_at(room as int) {
                None => ps,
                Some(host) => match first_offer(
                    rooms,
                    ps,
                    p.id,
                    p.kind,
                    room,
                    host.spec_grid().0 as int,
                    host.spec_grid().1 as int,
                    0,
                    0,
                ) {
                    None => ps,
                    Some(c) => ps.update(at, Piece { loc: Loc::Hold { room, x: c.0, y: c.1 }, ..p }),
                },
            },
            _ => ps,
        }
    }
}

/// The board after walking the pieces at the first `k` entries of
/// `stranded` onto their rooms' offer areas.
pub open spec fn offered(rooms: Rooms, ps: Seq<Piece>, stranded: Seq<usize>, k: int) -> Seq<Piece>
    decreases k,
{
    if k <= 0 || k > stranded.len() {
        ps
    } else {
        offer_one(rooms, offered(rooms, ps, stranded, k - 1), stranded[k - 1] as int)
    }
}

/// The migration for documents written before the entry-path law: a
/// proposal left on what is plain deck now walks onto the offer area
/// this build's room has.
pub open spec fn doorway_board(rooms: Rooms, ps: Seq<Piece>) -> Seq<Piece> {
    let st = picked(ps, |p: Piece| in_doorway(rooms, p), 0);
    offered(rooms, ps, st, st.len() as int)
}

/// Walk piece `at` onto its room's offer area.
fn offer_piece(rooms: &Rooms, pieces: &mut Vec<Piece>, at: usize)
    requires
        laid_are_coverings(old(pieces)@),
    ensures
        final(pieces)@ == offer_one(*rooms, old(pieces)@, at as int),
        laid_are_coverings(final(pieces)@),
{
    proof {
        let after = offer_one(*rooms, pieces@, at as int);
        assert forall|k: int| 0 <= k < after.len() && (#[trigger] after[k]).loc is Laid implies after[k].kind.spec_covering() by {
            assert(pieces@[k].loc is Laid);
        }
    }
    if at >= pieces.len() {
        return;
    }
    let p = pieces[at];
    let room = match p.loc {
        Loc::Hold { room, .. } => room,
        _ => return,
    };
    let host = match rooms.kind(room) {
        Some(h) => h,
        None => return,
    };
    let (cols, rows) = host.grid();
    match offer_berth(rooms, pieces.as_slice(), p.id, p.kind, room, host, cols, rows) {
        None => {},
        Some((x, y)) => {
            pieces.set(at, Piece { loc: Loc::Hold { room, x, y }, ..p });
        },
    }
}

/// Whether a cell of `kind` lay in the retired offer band.
fn retired(kind: RoomKind, x: u8, y: u8) -> (r: bool)
    ensures
        r == retired_offer(kind, x, y),
{
    if !(kind == RoomKind::Trade || kind == RoomKind::Parlor) {
        return false;
    }
    let surf = match kind.surface_of(x, y) {
        Some(s) => s,
        None => return false,
    };
    let (_, depth) = kind.floor();
    let band = surf == Surf::Front || ((surf == Surf::Floor || surf == Surf::Ceiling) && y as u16 + 2 >= COURSES as u16
        + depth as u16);
    band && kind.tile_of(x, y) != Some(Tile::Offer)
}

/// The indices of the pieces left standing on a retired doorway cell.
fn doorway_strays(rooms: &Rooms, pieces: &Vec<Piece>) -> (r: Vec<usize>)
    ensures
        r@ == picked(pieces@, |p: Piece| in_doorway(*rooms, p), 0),
{
    let ghost pred = |p: Piece| in_doorway(*rooms, p);
    let mut out: Vec<usize> = Vec::new();
    let mut i: usize = 0;
    while i < pieces.len()
        invariant
            i <= pieces@.len(),
            pred == (|p: Piece| in_doorway(*rooms, p)),
            out@ + picked(pieces@, pred, i as int) == picked(pieces@, pred, 0),
        decreases pieces@.len() - i,
    {
        let p = pieces[i];
        let stray = match p.loc {
            Loc::Hold { room, x, y } => match rooms.kind(room) {
                Some(k) => retired(k, x, y),
                None => false,
            },
            _ => false,
        };
        let ghost before = out@;
        if stray {
            out.push(i);
            assert(before + picked(pieces@, pred, i as int) =~= out@ + picked(pieces@, pred, i + 1));
        }
        i = i + 1;
    }
    assert(out@ + picked(pieces@, pred, i as int) =~= out@);
    out
}

/// Walk each proposal left in a doorway, in board order, onto its room's
/// offer area.
fn walk_proposals_off_the_doorway(rooms: &Rooms, pieces: &mut Vec<Piece>)
    requires
        laid_are_coverings(old(pieces)@),
    ensures
        final(pieces)@ == doorway_board(*rooms, old(pieces)@),
        laid_are_coverings(final(pieces)@),
{
    let stranded = doorway_strays(rooms, pieces);
    let ghost start = pieces@;
    let mut k: usize = 0;
    while k < stranded.len()
        invariant
            k <= stranded@.len(),
            stranded@ == picked(start, |p: Piece| in_doorway(*rooms, p), 0),
            pieces@ == offered(*rooms, start, stranded@, k as int),
            laid_are_coverings(pieces@),
        decreases stranded@.len() - k,
    {
        offer_piece(rooms, pieces, stranded[k]);
        k = k + 1;
    }
}

/// An offer walk conserves the board.
proof fn lemma_offer_conserves(rooms: Rooms, ps: Seq<Piece>, stranded: Seq<usize>, k: int)
    ensures
        conserved(ps, offered(rooms, ps, stranded, k)),
    decreases k,
{
    if k <= 0 || k > stranded.len() {
        assert(forall|i: int| 0 <= i < ps.len() ==> same_piece_elsewhere(#[trigger] ps[i], ps[i]));
    } else {
        lemma_offer_conserves(rooms, ps, stranded, k - 1);
        let before = offered(rooms, ps, stranded, k - 1);
        let after = offered(rooms, ps, stranded, k);
        assert forall|i: int| 0 <= i < ps.len() implies same_piece_elsewhere(#[trigger] ps[i], after[i]) by {
            assert(same_piece_elsewhere(ps[i], before[i]));
        }
    }
}

/// Two graphs with the same kinds find the same offer berth.
proof fn lemma_first_offer_alike(
    a: Rooms,
    b: Rooms,
    pieces: Seq<Piece>,
    id: u32,
    kind: Kind,
    room: RoomId,
    cols: int,
    rows: int,
    x: int,
    y: int,
)
    requires
        same_kinds(a, b),
    ensures
        first_offer(a, pieces, id, kind, room, cols, rows, x, y) == first_offer(b, pieces, id, kind, room, cols, rows, x, y),
    decreases rows - y, cols - x,
{
    if x < 0 || y < 0 || y >= rows || rows > 255 || cols > 255 {
    } else if x >= cols {
        lemma_first_offer_alike(a, b, pieces, id, kind, room, cols, rows, 0, y + 1);
    } else {
        lemma_takes_alike(a, b, pieces, id, kind, room, false, x as u8, y as u8);
        assert(a.kind_at(room as int) == b.kind_at(room as int));
        lemma_first_offer_alike(a, b, pieces, id, kind, room, cols, rows, x + 1, y);
    }
}

/// Two graphs with the same kinds walk proposals alike.
proof fn lemma_offered_alike(a: Rooms, b: Rooms, ps: Seq<Piece>, st: Seq<usize>, k: int)
    requires
        same_kinds(a, b),
    ensures
        offered(a, ps, st, k) == offered(b, ps, st, k),
    decreases k,
{
    if 0 < k <= st.len() {
        lemma_offered_alike(a, b, ps, st, k - 1);
        let before = offered(a, ps, st, k - 1);
        let at = st[k - 1] as int;
        if 0 <= at < before.len() {
            let p = before[at];
            if let Loc::Hold { room, .. } = p.loc {
                assert(a.kind_at(room as int) == b.kind_at(room as int));
                if let Some(host) = a.kind_at(room as int) {
                    lemma_first_offer_alike(a, b, before, p.id, p.kind, room, host.spec_grid().0 as int, host.spec_grid().1 as int, 0, 0);
                }
            }
        }
    }
}

/// Two graphs with the same kinds pick the same doorway strays.
proof fn lemma_doorway_picked_alike(a: Rooms, b: Rooms, ps: Seq<Piece>, i: int)
    requires
        same_kinds(a, b),
    ensures
        picked(ps, |p: Piece| in_doorway(a, p), i) == picked(ps, |p: Piece| in_doorway(b, p), i),
    decreases ps.len() - i,
{
    if 0 <= i < ps.len() {
        if let Loc::Hold { room, .. } = ps[i].loc {
            assert(a.kind_at(room as int) == b.kind_at(room as int));
        }
        assert(in_doorway(a, ps[i]) == in_doorway(b, ps[i]));
        lemma_doorway_picked_alike(a, b, ps, i + 1);
    }
}


// ---------------------------------------------------------------------
// The discovery ledger before the window family
// ---------------------------------------------------------------------

/// The ledger bits of the window kinds among the first `n` kinds of the
/// table.
pub open spec fn window_bits(n: int) -> u32
    decreases n,
{
    if n <= 0 {
        0
    } else {
        let m = window_bits(n - 1);
        match Kind::spec_from_index(n - 1) {
            Some(k) => if k.spec_window() {
                m | (1u32 << ((n - 1) as u32))
            } else {
                m
            },
            None => m,
        }
    }
}

/// What "every kind" meant in a ledger written before the window
/// family joined the table: every bit but the windows'.
pub open spec fn was_all() -> u32 {
    KNOWN_ALL & !window_bits(KIND_COUNT as int)
}

/// A ledger written before the window family, read now: a station that
/// knew the whole table then knows the whole table now, glass included;
/// any other mask means what it says.
pub open spec fn widened(f: Seq<u32>) -> Seq<u32> {
    f.map_values(|m: u32| if m == was_all() { KNOWN_ALL } else { m })
}

/// The ledger of a document of version `version`, read now.
pub open spec fn ledger_after(version: int, f: Seq<u32>) -> Seq<u32> {
    if version < 13 {
        widened(f)
    } else {
        f
    }
}

/// The ledger bits of the window kinds.
fn window_mask() -> (r: u32)
    ensures
        r == window_bits(KIND_COUNT as int),
{
    let mut m: u32 = 0;
    let mut i: usize = 0;
    while i < KIND_COUNT
        invariant
            i <= KIND_COUNT,
            m == window_bits(i as int),
        decreases KIND_COUNT - i,
    {
        match Kind::from_index(i) {
            Some(k) => {
                if k.window() {
                    m = m | (1u32 << (i as u32));
                }
            },
            None => {},
        }
        i = i + 1;
    }
    m
}

/// Widen a ledger written before the window family.
pub fn widen_familiar(familiar: &mut Vec<u32>)
    ensures
        final(familiar)@ == widened(old(familiar)@),
{
    let all_then = KNOWN_ALL & !window_mask();
    let ghost start = familiar@;
    let mut i: usize = 0;
    while i < familiar.len()
        invariant
            i <= familiar@.len(),
            familiar@.len() == start.len(),
            all_then == was_all(),
            forall|j: int| 0 <= j < i ==> #[trigger] familiar@[j] == widened(start)[j],
            forall|j: int| i <= j < familiar@.len() ==> #[trigger] familiar@[j] == start[j],
        decreases familiar@.len() - i,
    {
        if familiar[i] == all_then {
            familiar.set(i, KNOWN_ALL);
        }
        i = i + 1;
    }
    assert(familiar@ =~= widened(start));
}

} // verus!
