//! What happens aboard on its own while the ship goes about its
//! business: the stoker's beat, the fluff arithmetic, a fresh piece
//! stowed at the first legal berth, and the hangar steal at the Guild.

use vstd::prelude::*;
use crate::sim::{Held, spec_splitmix, splitmix};
use crate::sim::barter::{spec_tiles_of, tiles_of};
use crate::sim::cargo::{
    Kind, Loc, Piece, Tag, VARIANTS, aboard_berth, dress_fit, find_piece, first_fit, first_with_id, fits_at,
    lays_at, placement_legal, player_owned, scanned_before, spec_loc_room, spec_placement, spec_player_owned,
};
use crate::sim::deal::{proposal, roll_variant, spec_proposal};
use crate::sim::map::{ShipState, WANDERER};
use crate::sim::encounter::Encounters;
use crate::sim::room::{MAX_ROOMS, RoomId, RoomKind, Rooms, Tile};

verus! {

/// Deliveries that fill the hangar counter and set the Grand Parade
/// loose.
pub const PARADE_AT: u32 = 32;

/// The stoker's beat, in ticks: one hopper piece goes into the fire
/// this often.
pub const STOKE_PERIOD: u64 = 720;

/// Boost ticks per point of flammability.
pub const STOKE_PER_FLAM: u64 = 900;

/// Ticks between fluff breeding windows.
pub const FLUFF_WINDOW: u64 = 10_800;

/// Salt for the fluff breeding windows.
pub const SALT_FLUFF: u64 = 0xF1_0FF5;

/// Most fluffs the hold will breed to.
pub const FLUFF_CAP: usize = 8;

// ---------------------------------------------------------------------
// Crew carries
// ---------------------------------------------------------------------

/// The crew's carries once piece `id` is gone: whoever held it holds
/// nothing.
pub open spec fn dropped_carry(held: Seq<Option<Held>>, id: u32) -> Seq<Option<Held>> {
    Seq::new(
        held.len(),
        |k: int|
            if held[k] matches Some(h) && h.piece == id {
                None
            } else {
                held[k]
            },
    )
}

/// Let go of piece `id` wherever a crew member carries it.
pub fn drop_carry(held: &mut Vec<Option<Held>>, id: u32)
    ensures
        final(held)@ == dropped_carry(old(held)@, id),
{
    let ghost h0 = held@;
    let mut k: usize = 0;
    while k < held.len()
        invariant
            held@.len() == h0.len(),
            k <= h0.len(),
            forall|j: int| 0 <= j < k ==> #[trigger] held@[j] == dropped_carry(h0, id)[j],
            forall|j: int| k <= j < h0.len() ==> #[trigger] held@[j] == h0[j],
        decreases h0.len() - k,
    {
        if let Some(h) = held[k] {
            if h.piece == id {
                held.set(k, None);
            }
        }
        k = k + 1;
    }
    assert(held@ =~= dropped_carry(h0, id));
}

/// Whether a piece is other than piece `id`.
pub open spec fn not_piece(id: u32) -> spec_fn(Piece) -> bool {
    |p: Piece| p.id != id
}

/// Whether a mark names other than `id`.
pub open spec fn not_mark(id: u32) -> spec_fn(u32) -> bool {
    |m: u32| m != id
}

/// The board without piece `id`, in the order it stood.
pub open spec fn without_id(pieces: Seq<Piece>, id: u32) -> Seq<Piece> {
    pieces.filter(not_piece(id))
}

/// The marks without `id`.
pub open spec fn unmarked(marks: Seq<u32>, id: u32) -> Seq<u32> {
    marks.filter(not_mark(id))
}

/// Take piece `id` off the board and out of the marks.
fn discard(pieces: &mut Vec<Piece>, marks: &mut Vec<u32>, id: u32)
    ensures
        final(pieces)@ == without_id(old(pieces)@, id),
        final(marks)@ == unmarked(old(marks)@, id),
{
    let ghost p0 = pieces@;
    let ghost keep = not_piece(id);
    let mut kept: Vec<Piece> = Vec::new();
    let mut i: usize = 0;
    while i < pieces.len()
        invariant
            pieces@ == p0,
            i <= p0.len(),
            keep == not_piece(id),
            kept@ == p0.take(i as int).filter(keep),
        decreases p0.len() - i,
    {
        let piece = pieces[i];
        proof {
            reveal(Seq::filter);
            assert(p0.take(i + 1).drop_last() =~= p0.take(i as int));
            assert(p0.take(i + 1).last() == piece);
        }
        if piece.id != id {
            kept.push(piece);
        }
        i = i + 1;
    }
    proof {
        assert(p0.take(p0.len() as int) =~= p0);
    }
    *pieces = kept;
    let ghost m0 = marks@;
    let ghost keep_mark = not_mark(id);
    let mut kept_marks: Vec<u32> = Vec::new();
    let mut i: usize = 0;
    while i < marks.len()
        invariant
            marks@ == m0,
            i <= m0.len(),
            keep_mark == not_mark(id),
            kept_marks@ == m0.take(i as int).filter(keep_mark),
        decreases m0.len() - i,
    {
        let m = marks[i];
        proof {
            reveal(Seq::filter);
            assert(m0.take(i + 1).drop_last() =~= m0.take(i as int));
            assert(m0.take(i + 1).last() == m);
        }
        if m != id {
            kept_marks.push(m);
        }
        i = i + 1;
    }
    proof {
        assert(m0.take(m0.len() as int) =~= m0);
    }
    *marks = kept_marks;
}

// ---------------------------------------------------------------------
// The hangar steal
// ---------------------------------------------------------------------

/// Whether the hangar seizes `p`: a suspicious piece berthed in a room
/// that rides with the ship.
pub open spec fn seized(rooms: Rooms, p: Piece) -> bool {
    &&& p.kind.spec_tag() == Some(Tag::Suspicious)
    &&& p.loc matches Loc::Hold { room, .. } && rooms.riding_at(room as int)
}

/// The first piece from index `i` on that the hangar seizes.
pub open spec fn first_seized(rooms: Rooms, pieces: Seq<Piece>, i: int) -> Option<int>
    decreases pieces.len() - i,
{
    if i < 0 || i >= pieces.len() {
        None
    } else if seized(rooms, pieces[i]) {
        Some(i)
    } else {
        first_seized(rooms, pieces, i + 1)
    }
}

/// What the hangar counts a seized crate as: whatever the very
/// mysterious one is, four times.
pub open spec fn hangar_worth(kind: Kind) -> u32 {
    if kind == Kind::VeryMysteriousCrate {
        4
    } else {
        1
    }
}

/// The hangar steal at the Guild: the first suspicious crate aboard (in
/// stowage order) is seized, any carry of it drops, and the hangar
/// counts it on the delivery tally. When that fills the counter for the
/// first time, the Grand Parade starts at `tick`.
///
/// `None` when nothing aboard is suspicious; otherwise whether the
/// parade just started.
pub fn steal_crate(
    rooms: &Rooms,
    pieces: &mut Vec<Piece>,
    held: &mut Vec<Option<Held>>,
    deliveries: &mut u32,
    parade_at: &mut Option<u64>,
    tick: u64,
) -> (r: Option<bool>)
    requires
        *old(deliveries) + 4 <= u32::MAX,
    ensures
        match first_seized(*rooms, old(pieces)@, 0) {
            None => {
                &&& r is None
                &&& final(pieces)@ == old(pieces)@
                &&& final(held)@ == old(held)@
                &&& *final(deliveries) == *old(deliveries)
                &&& *final(parade_at) == *old(parade_at)
            },
            Some(i) => {
                let p = old(pieces)@[i];
                let d = *old(deliveries) + hangar_worth(p.kind);
                let starts = d >= PARADE_AT && (*old(parade_at)) is None;
                &&& 0 <= i < old(pieces)@.len()
                &&& final(pieces)@ == old(pieces)@.remove(i)
                &&& final(held)@ == dropped_carry(old(held)@, p.id)
                &&& *final(deliveries) == d
                &&& r == Some(starts)
                &&& *final(parade_at) == if starts {
                    Some(tick)
                } else {
                    *old(parade_at)
                }
            },
        },
{
    let mut i: usize = 0;
    let mut found: Option<usize> = None;
    while i < pieces.len()
        invariant_except_break
            found is None,
        invariant
            i <= pieces@.len(),
            first_seized(*rooms, pieces@, 0) == first_seized(*rooms, pieces@, i as int),
        ensures
            match found {
                Some(k) => k < pieces@.len() && first_seized(*rooms, pieces@, 0) == Some(k as int),
                None => first_seized(*rooms, pieces@, 0) is None,
            },
        decreases pieces@.len() - i,
    {
        let piece = pieces[i];
        let hit = piece.kind.tag() == Some(Tag::Suspicious) && match piece.loc {
            Loc::Hold { room, .. } => rooms.riding(room),
            _ => false,
        };
        if hit {
            found = Some(i);
            break;
        }
        i = i + 1;
    }
    let index = match found {
        Some(k) => k,
        None => return None,
    };
    let piece = pieces.remove(index);
    let worth: u32 = if piece.kind == Kind::VeryMysteriousCrate {
        4
    } else {
        1
    };
    drop_carry(held, piece.id);
    *deliveries = *deliveries + worth;
    if *deliveries >= PARADE_AT && parade_at.is_none() {
        *parade_at = Some(tick);
        Some(true)
    } else {
        Some(false)
    }
}

// ---------------------------------------------------------------------
// The stoker
// ---------------------------------------------------------------------

/// Whether something alongside is being watched: an open encounter
/// pauses the shovel.
pub open spec fn watching(encounters: Encounters) -> bool {
    encounters.current matches Some(c) && c.opened && !c.closed
}

/// Whether `r` is the first attached room of `kind`, in id order.
pub open spec fn first_of_kind(rooms: Rooms, kind: RoomKind, r: Option<RoomId>) -> bool {
    match r {
        Some(id) => id < MAX_ROOMS && rooms.kind_at(id as int) == Some(kind) && forall|j: int|
            0 <= j < id ==> rooms.kind_at(j) != Some(kind),
        None => forall|j: int| 0 <= j < MAX_ROOMS ==> rooms.kind_at(j) != Some(kind),
    }
}

/// The first attached room of `kind`, as a value: there is at most one.
pub open spec fn room_of_kind(rooms: Rooms, kind: RoomKind) -> Option<RoomId> {
    choose|r: Option<RoomId>| first_of_kind(rooms, kind, r)
}

/// Two answers to "the first room of this kind" agree.
pub proof fn lemma_first_of_kind_unique(rooms: Rooms, kind: RoomKind, a: Option<RoomId>, b: Option<RoomId>)
    requires
        first_of_kind(rooms, kind, a),
        first_of_kind(rooms, kind, b),
    ensures
        a == b,
{
    if let Some(x) = a {
        if let Some(y) = b {
            if x < y {
                assert(rooms.kind_at(x as int) != Some(kind));
            } else if y < x {
                assert(rooms.kind_at(y as int) != Some(kind));
            }
        } else {
            assert(rooms.kind_at(x as int) != Some(kind));
        }
    } else if let Some(y) = b {
        assert(rooms.kind_at(y as int) != Some(kind));
    }
}

/// The first piece from index `i` on berthed exactly at `loc`.
pub open spec fn first_at(pieces: Seq<Piece>, loc: Loc, i: int) -> Option<Piece>
    decreases pieces.len() - i,
{
    if i < 0 || i >= pieces.len() {
        None
    } else if pieces[i].loc == loc {
        Some(pieces[i])
    } else {
        first_at(pieces, loc, i + 1)
    }
}

/// The piece the stoker finds first, reading `cells` of `burner` from
/// index `k` on: the first cell that anything stands on, and the first
/// piece standing there.
pub open spec fn hopper_from(pieces: Seq<Piece>, burner: RoomId, cells: Seq<(u8, u8)>, k: int) -> Option<Piece>
    decreases cells.len() - k,
{
    if k < 0 || k >= cells.len() {
        None
    } else {
        match first_at(pieces, Loc::Hold { room: burner, x: cells[k].0, y: cells[k].1 }, 0) {
            Some(p) => Some(p),
            None => hopper_from(pieces, burner, cells, k + 1),
        }
    }
}

/// What the stoker would feed to the fire now, if anything: the lowest
/// occupied hazard cell of the first burner room, in its own row-major
/// order.
pub open spec fn spec_hopper(rooms: Rooms, pieces: Seq<Piece>) -> Option<Piece> {
    match room_of_kind(rooms, RoomKind::Burner) {
        Some(burner) => hopper_from(pieces, burner, spec_tiles_of(rooms, burner, Tile::Consume), 0),
        None => None,
    }
}

/// The first piece berthed at `loc`.
fn piece_at(pieces: &[Piece], loc: Loc) -> (r: Option<Piece>)
    ensures
        r == first_at(pieces@, loc, 0),
{
    let mut i: usize = 0;
    while i < pieces.len()
        invariant
            i <= pieces@.len(),
            first_at(pieces@, loc, 0) == first_at(pieces@, loc, i as int),
        decreases pieces@.len() - i,
    {
        if pieces[i].loc == loc {
            return Some(pieces[i]);
        }
        i = i + 1;
    }
    None
}

/// The stoker's beat: on the metronome, with nothing alongside being
/// watched, the lowest occupied hazard cell of the burner room goes into
/// the fire. The piece leaves the board, its mark and any carry of it
/// drop, and its flammability becomes boost. Returns the kind burnt.
pub fn feed_burner(
    rooms: &Rooms,
    pieces: &mut Vec<Piece>,
    marks: &mut Vec<u32>,
    held: &mut Vec<Option<Held>>,
    stoke: &mut u64,
    encounters: &Encounters,
    tick: u64,
) -> (r: Option<Kind>)
    requires
        *old(stoke) + 3 * STOKE_PER_FLAM <= u64::MAX,
    ensures
        ({
            let fed = if tick % STOKE_PERIOD == 0 && !watching(*encounters) {
                spec_hopper(*rooms, old(pieces)@)
            } else {
                None
            };
            match fed {
                None => {
                    &&& r is None
                    &&& final(pieces)@ == old(pieces)@
                    &&& final(marks)@ == old(marks)@
                    &&& final(held)@ == old(held)@
                    &&& *final(stoke) == *old(stoke)
                },
                Some(p) => {
                    &&& r == Some(p.kind)
                    &&& final(pieces)@ == without_id(old(pieces)@, p.id)
                    &&& final(marks)@ == unmarked(old(marks)@, p.id)
                    &&& final(held)@ == dropped_carry(old(held)@, p.id)
                    &&& *final(stoke) == *old(stoke) + p.kind.spec_flammable() * STOKE_PER_FLAM
                },
            }
        }),
{
    if tick % STOKE_PERIOD != 0 {
        return None;
    }
    let busy = match &encounters.current {
        Some(c) => c.open(),
        None => false,
    };
    if busy {
        return None;
    }
    let burner = match rooms.find(RoomKind::Burner) {
        Some(b) => b,
        None => {
            proof {
                assert(first_of_kind(*rooms, RoomKind::Burner, None));
                lemma_first_of_kind_unique(*rooms, RoomKind::Burner, None, room_of_kind(*rooms, RoomKind::Burner));
            }
            return None;
        },
    };
    proof {
        assert(first_of_kind(*rooms, RoomKind::Burner, Some(burner)));
        lemma_first_of_kind_unique(*rooms, RoomKind::Burner, Some(burner), room_of_kind(*rooms, RoomKind::Burner));
    }
    let cells = tiles_of(rooms, burner, Tile::Consume);
    let mut k: usize = 0;
    let mut fed: Option<Piece> = None;
    while k < cells.len()
        invariant_except_break
            fed is None,
        invariant
            k <= cells@.len(),
            hopper_from(pieces@, burner, cells@, 0) == hopper_from(pieces@, burner, cells@, k as int),
        ensures
            fed == hopper_from(pieces@, burner, cells@, 0),
        decreases cells@.len() - k,
    {
        let (x, y) = cells[k];
        let here = piece_at(pieces.as_slice(), Loc::Hold { room: burner, x, y });
        if here.is_some() {
            fed = here;
            break;
        }
        k = k + 1;
    }
    let piece = match fed {
        Some(p) => p,
        None => return None,
    };
    discard(pieces, marks, piece.id);
    drop_carry(held, piece.id);
    let flam = piece.kind.flammable();
    proof {
        assert(flam <= 3);
    }
    *stoke = *stoke + (flam as u64) * STOKE_PER_FLAM;
    Some(piece.kind)
}

// ---------------------------------------------------------------------
// The fluff arithmetic
// ---------------------------------------------------------------------

/// Whether `tick` is the breeding moment of its window: each window
/// picks its own moment from the seed and the window number.
pub open spec fn breeding_now(seed: u64, tick: u64) -> bool {
    tick % FLUFF_WINDOW == spec_splitmix(seed ^ SALT_FLUFF, tick / FLUFF_WINDOW) % FLUFF_WINDOW
}

/// Whether `p` is a fluff berthed in a room.
pub open spec fn berthed_fluff(p: Piece) -> bool {
    p.kind == Kind::Fluff && p.loc is Hold
}

/// How many of the first `n` pieces are berthed fluffs.
pub open spec fn fluffs_upto(pieces: Seq<Piece>, n: int) -> nat
    decreases n,
{
    if n <= 0 {
        0
    } else {
        fluffs_upto(pieces, n - 1) + if berthed_fluff(pieces[n - 1]) {
            1nat
        } else {
            0nat
        }
    }
}

/// The eldest berthed fluff among the first `n` pieces: the lowest id,
/// the first such piece where ids tie.
pub open spec fn eldest_upto(pieces: Seq<Piece>, n: int) -> Option<int>
    decreases n,
{
    if n <= 0 {
        None
    } else {
        let e = eldest_upto(pieces, n - 1);
        if berthed_fluff(pieces[n - 1]) && (e matches Some(j) ==> pieces[n - 1].id < pieces[j].id) {
            Some(n - 1)
        } else {
            e
        }
    }
}

/// The eldest is a berthed fluff, no other berthed fluff is younger in
/// id, and none before it ties.
pub proof fn lemma_eldest(pieces: Seq<Piece>, n: int)
    requires
        0 <= n <= pieces.len(),
    ensures
        (eldest_upto(pieces, n) is Some) == (fluffs_upto(pieces, n) > 0),
        fluffs_upto(pieces, n) == 0 ==> forall|j: int| 0 <= j < n ==> !berthed_fluff(#[trigger] pieces[j]),
        eldest_upto(pieces, n) matches Some(e) ==> {
            &&& 0 <= e < n
            &&& berthed_fluff(pieces[e])
            &&& forall|j: int| 0 <= j < n && berthed_fluff(#[trigger] pieces[j]) ==> pieces[e].id <= pieces[j].id
            &&& forall|j: int| 0 <= j < e && berthed_fluff(#[trigger] pieces[j]) ==> pieces[e].id < pieces[j].id
        },
    decreases n,
{
    if n > 0 {
        lemma_eldest(pieces, n - 1);
        let prev = eldest_upto(pieces, n - 1);
        if let Some(e) = eldest_upto(pieces, n) {
            if e == n - 1 {
                assert forall|j: int| 0 <= j < n && berthed_fluff(#[trigger] pieces[j]) implies pieces[e].id
                    <= pieces[j].id by {
                    if j < n - 1 {
                        assert(fluffs_upto(pieces, n - 1) > 0);
                        assert(prev is Some);
                    }
                }
            } else {
                assert(prev == Some(e));
                assert forall|j: int| 0 <= j < n && berthed_fluff(#[trigger] pieces[j]) implies pieces[e].id
                    <= pieces[j].id by {
                    if j == n - 1 {
                        assert(!(pieces[n - 1].id < pieces[e].id));
                    }
                }
            }
        }
    }
}

/// The `k`-th neighbour of cell `(x, y)` a fluff buds into: left,
/// right, up, down.
pub open spec fn neighbour(x: u8, y: u8, k: int) -> (u8, u8) {
    if k == 0 {
        (vstd::wrapping::u8_specs::wrapping_sub(x, 1), y)
    } else if k == 1 {
        ((x + 1) as u8, y)
    } else if k == 2 {
        (x, vstd::wrapping::u8_specs::wrapping_sub(y, 1))
    } else {
        (x, (y + 1) as u8)
    }
}

/// The first neighbour, from the `k`-th on, where a fresh fluff with id
/// `id` may legally stand.
pub open spec fn first_bud(rooms: Rooms, pieces: Seq<Piece>, id: u32, room: RoomId, x: u8, y: u8, k: int) -> Option<(u8, u8)>
    decreases 4 - k,
{
    if k < 0 || k >= 4 {
        None
    } else {
        let c = neighbour(x, y, k);
        if spec_placement(rooms, pieces, id, Kind::Fluff, room, c.0, c.1) is Ok {
            Some(c)
        } else {
            first_bud(rooms, pieces, id, room, x, y, k + 1)
        }
    }
}

/// Where this tick's bud goes, if one comes: at a window's breeding
/// moment, while there are berthed fluffs and fewer than the cap, the
/// eldest buds into its first free neighbour of the same room.
pub open spec fn spec_bud(rooms: Rooms, pieces: Seq<Piece>, next: u32, seed: u64, tick: u64) -> Option<Loc> {
    let n = fluffs_upto(pieces, pieces.len() as int);
    if !breeding_now(seed, tick) || n == 0 || n >= FLUFF_CAP {
        None
    } else {
        match eldest_upto(pieces, pieces.len() as int) {
            Some(e) => match pieces[e].loc {
                Loc::Hold { room, x, y } => match first_bud(rooms, pieces, next, room, x, y, 0) {
                    Some(c) => Some(Loc::Hold { room, x: c.0, y: c.1 }),
                    None => None,
                },
                _ => None,
            },
            None => None,
        }
    }
}

/// Whether every berthed fluff has a cell to its right and below within
/// a byte.
pub open spec fn fluffs_in_range(pieces: Seq<Piece>) -> bool {
    forall|i: int|
        0 <= i < pieces.len() && berthed_fluff(#[trigger] pieces[i]) ==> (pieces[i].loc matches Loc::Hold {
            x,
            y,
            ..
        } && x < 255 && y < 255)
}

/// The cell neighbour `k` of `(x, y)` names.
fn neighbour_of(x: u8, y: u8, k: u8) -> (r: (u8, u8))
    requires
        x < 255,
        y < 255,
        k < 4,
    ensures
        r == neighbour(x, y, k as int),
{
    if k == 0 {
        (x.wrapping_sub(1), y)
    } else if k == 1 {
        (x + 1, y)
    } else if k == 2 {
        (x, y.wrapping_sub(1))
    } else {
        (x, y + 1)
    }
}

/// The fluff arithmetic: at a window's breeding moment, the eldest
/// berthed fluff buds a copy, with the next id and a rolled variant,
/// into the first adjacent cell of its room where a fluff may stand,
/// while the hold has fewer fluffs than the cap. Returns whether one
/// was born.
pub fn breed_fluffs(
    rooms: &Rooms,
    pieces: &mut Vec<Piece>,
    next_piece: &mut u32,
    rng: &mut fastrand::Rng,
    seed: u64,
    tick: u64,
) -> (r: bool)
    requires
        *old(next_piece) < u32::MAX,
        fluffs_in_range(old(pieces)@),
    ensures
        match spec_bud(*rooms, old(pieces)@, *old(next_piece), seed, tick) {
            None => {
                &&& !r
                &&& final(pieces)@ == old(pieces)@
                &&& *final(next_piece) == *old(next_piece)
            },
            Some(loc) => {
                &&& r
                &&& *final(next_piece) == *old(next_piece) + 1
                &&& exists|v: u8|
                    v < VARIANTS && final(pieces)@ == old(pieces)@.push(
                        Piece { id: *old(next_piece), kind: Kind::Fluff, variant: v, gnawed: false, loc },
                    )
            },
        },
{
    if tick % FLUFF_WINDOW != splitmix(seed ^ SALT_FLUFF, tick / FLUFF_WINDOW) % FLUFF_WINDOW {
        return false;
    }
    let mut n: usize = 0;
    let mut eldest: Option<usize> = None;
    let mut i: usize = 0;
    while i < pieces.len()
        invariant
            i <= pieces@.len(),
            n == fluffs_upto(pieces@, i as int),
            n <= i,
            eldest matches Some(e) ==> e < i,
            match eldest {
                Some(e) => eldest_upto(pieces@, i as int) == Some(e as int),
                None => eldest_upto(pieces@, i as int) is None,
            },
        decreases pieces@.len() - i,
    {
        let p = pieces[i];
        let fluff = p.kind == Kind::Fluff && match p.loc {
            Loc::Hold { .. } => true,
            _ => false,
        };
        if fluff {
            n = n + 1;
            let younger = match eldest {
                Some(e) => p.id < pieces[e].id,
                None => true,
            };
            if younger {
                eldest = Some(i);
            }
        }
        i = i + 1;
    }
    if n == 0 || n >= FLUFF_CAP {
        return false;
    }
    proof {
        lemma_eldest(pieces@, pieces@.len() as int);
    }
    let e = match eldest {
        Some(e) => e,
        None => return false,
    };
    let (room, x, y) = match pieces[e].loc {
        Loc::Hold { room, x, y } => (room, x, y),
        _ => return false,
    };
    assert(berthed_fluff(pieces@[e as int]));
    assert(spec_bud(*rooms, pieces@, *next_piece, seed, tick) == match first_bud(
        *rooms,
        pieces@,
        *next_piece,
        room,
        x,
        y,
        0,
    ) {
        Some(c) => Some(Loc::Hold { room, x: c.0, y: c.1 }),
        None => None,
    });
    let mut k: u8 = 0;
    while k < 4
        invariant
            k <= 4,
            x < 255,
            y < 255,
            pieces@ == old(pieces)@,
            *next_piece == *old(next_piece),
            *old(next_piece) < u32::MAX,
            spec_bud(*rooms, pieces@, *next_piece, seed, tick) == match first_bud(
                *rooms,
                pieces@,
                *next_piece,
                room,
                x,
                y,
                0,
            ) {
                Some(c) => Some(Loc::Hold { room, x: c.0, y: c.1 }),
                None => None,
            },
            first_bud(*rooms, pieces@, *next_piece, room, x, y, 0) == first_bud(
                *rooms,
                pieces@,
                *next_piece,
                room,
                x,
                y,
                k as int,
            ),
        decreases 4 - k,
    {
        let (nx, ny) = neighbour_of(x, y, k);
        if placement_legal(rooms, pieces.as_slice(), *next_piece, Kind::Fluff, room, nx, ny) {
            let variant = roll_variant(rng);
            let ghost p0 = pieces@;
            pieces.push(
                Piece { id: *next_piece, kind: Kind::Fluff, variant, gnawed: false, loc: Loc::Hold { room, x: nx, y: ny } },
            );
            *next_piece = *next_piece + 1;
            assert(pieces@ == p0.push(
                Piece { id: *old(next_piece), kind: Kind::Fluff, variant, gnawed: false, loc: Loc::Hold { room, x: nx, y: ny } },
            ));
            return true;
        }
        k = k + 1;
    }
    false
}

// ---------------------------------------------------------------------
// Free cargo
// ---------------------------------------------------------------------

/// Stow a fresh `kind` at the first legal berth aboard (rooms in id
/// order, then row-major), with the next id and a rolled variant.
/// Returns whether there was such a berth; a covering has none.
pub fn spawn_in_hold(rooms: &Rooms, pieces: &mut Vec<Piece>, next_piece: &mut u32, rng: &mut fastrand::Rng, kind: Kind) -> (r: bool)
    requires
        *old(next_piece) < u32::MAX,
    ensures
        r == (!kind.spec_covering() && exists|c: (RoomId, u8, u8)|
            aboard_berth(*rooms, c) && #[trigger] fits_at(*rooms, old(pieces)@, *old(next_piece), kind, c)),
        !r ==> final(pieces)@ == old(pieces)@ && *final(next_piece) == *old(next_piece),
        r ==> *final(next_piece) == *old(next_piece) + 1 && exists|b: (RoomId, u8, u8), v: u8|
            {
                &&& v < VARIANTS
                &&& aboard_berth(*rooms, b)
                &&& fits_at(*rooms, old(pieces)@, *old(next_piece), kind, b)
                &&& forall|c: (RoomId, u8, u8)|
                    aboard_berth(*rooms, c) && scanned_before(c, b) ==> !#[trigger] fits_at(
                        *rooms,
                        old(pieces)@,
                        *old(next_piece),
                        kind,
                        c,
                    )
                &&& final(pieces)@ == old(pieces)@.push(
                    Piece { id: *old(next_piece), kind, variant: v, gnawed: false, loc: Loc::Hold { room: b.0, x: b.1, y: b.2 } },
                )
            },
{
    let berth = first_fit(rooms, pieces.as_slice(), *next_piece, kind);
    match berth {
        Some((room, x, y)) => {
            let variant = roll_variant(rng);
            let ghost p0 = pieces@;
            pieces.push(Piece { id: *next_piece, kind, variant, gnawed: false, loc: Loc::Hold { room, x, y } });
            *next_piece = *next_piece + 1;
            assert(fits_at(*rooms, p0, *old(next_piece), kind, (room, x, y)));
            true
        },
        None => false,
    }
}

// ---------------------------------------------------------------------
// The offering at the wanderer
// ---------------------------------------------------------------------

/// Mysterious crates the wanderer asks for, and takes, in one exchange.
pub const WANDERER_TOLL: u32 = 3;

/// Whether id `id` names a mysterious crate on the board.
pub open spec fn names_mystery(pieces: Seq<Piece>) -> spec_fn(u32) -> bool {
    |id: u32| exists|j: int| 0 <= j < pieces.len() && (#[trigger] pieces[j]).id == id && pieces[j].kind == Kind::MysteriousCrate
}

/// The mysterious crates offered at `room`, ids ascending.
pub open spec fn offered_crates(rooms: Rooms, pieces: Seq<Piece>, room: RoomId) -> Seq<u32> {
    spec_proposal(rooms, pieces, room).filter(names_mystery(pieces))
}

/// Whether a piece is not among the ids `toll`.
pub open spec fn not_taken(toll: Seq<u32>) -> spec_fn(Piece) -> bool {
    |p: Piece| !toll.contains(p.id)
}

/// The crew's carries once every piece of `toll` is gone.
pub open spec fn dropped_carries(held: Seq<Option<Held>>, toll: Seq<u32>) -> Seq<Option<Held>> {
    Seq::new(
        held.len(),
        |k: int|
            if held[k] matches Some(h) && toll.contains(h.piece) {
                None
            } else {
                held[k]
            },
    )
}

/// Whether the first [`WANDERER_TOLL`] offered crates are due: the ship
/// is docked at the wanderer, a market room is alongside, and that many
/// mysterious crates lie on its offer area.
pub open spec fn toll_due(state: ShipState, rooms: Rooms, pieces: Seq<Piece>) -> bool {
    &&& state == ShipState::Docked(WANDERER)
    &&& room_of_kind(rooms, RoomKind::Trade) matches Some(room) && offered_crates(rooms, pieces, room).len()
        >= WANDERER_TOLL
}

/// The crates the wanderer takes: the first [`WANDERER_TOLL`] offered.
pub open spec fn toll_of(rooms: Rooms, pieces: Seq<Piece>) -> Seq<u32> {
    offered_crates(rooms, pieces, room_of_kind(rooms, RoomKind::Trade)->0).take(WANDERER_TOLL as int)
}

/// The mysterious crates offered at `room`, ids ascending.
fn offered_at(rooms: &Rooms, pieces: &[Piece], room: RoomId) -> (r: Vec<u32>)
    ensures
        r@ == offered_crates(*rooms, pieces@, room),
{
    let ids = proposal(rooms, pieces, room);
    let ghost keep = names_mystery(pieces@);
    let mut out: Vec<u32> = Vec::new();
    let mut i: usize = 0;
    while i < ids.len()
        invariant
            i <= ids@.len(),
            ids@ == spec_proposal(*rooms, pieces@, room),
            keep == names_mystery(pieces@),
            out@ == ids@.take(i as int).filter(keep),
        decreases ids@.len() - i,
    {
        let id = ids[i];
        proof {
            reveal(Seq::filter);
            assert(ids@.take(i + 1).drop_last() =~= ids@.take(i as int));
            assert(ids@.take(i + 1).last() == id);
        }
        let mut j: usize = 0;
        let mut found = false;
        while j < pieces.len()
            invariant
                j <= pieces@.len(),
                found == exists|q: int| 0 <= q < j && (#[trigger] pieces@[q]).id == id && pieces@[q].kind
                    == Kind::MysteriousCrate,
            decreases pieces@.len() - j,
        {
            if pieces[j].id == id && pieces[j].kind == Kind::MysteriousCrate {
                found = true;
            }
            proof {
                if !found {
                    assert forall|q: int| 0 <= q < j + 1 implies !((#[trigger] pieces@[q]).id == id && pieces@[q].kind
                        == Kind::MysteriousCrate) by {
                        if q < j {
                            assert(!(pieces@[q].id == id && pieces@[q].kind == Kind::MysteriousCrate));
                        }
                    }
                }
            }
            j = j + 1;
        }
        if found {
            out.push(id);
        }
        i = i + 1;
    }
    proof {
        assert(ids@.take(ids@.len() as int) =~= ids@);
    }
    out
}

/// Whether `ids` holds `id`.
fn among(ids: &Vec<u32>, id: u32) -> (r: bool)
    ensures
        r == ids@.contains(id),
{
    let mut i: usize = 0;
    while i < ids.len()
        invariant
            i <= ids@.len(),
            forall|j: int| 0 <= j < i ==> ids@[j] != id,
        decreases ids@.len() - i,
    {
        if ids[i] == id {
            return true;
        }
        i = i + 1;
    }
    false
}

/// The offering at the wanderer: docked there with a market alongside,
/// once [`WANDERER_TOLL`] mysterious crates lie on its offer area and a
/// legal berth aboard waits for a very mysterious one, the first three
/// offered (ids ascending) leave the board — any carry of them drops —
/// and a very mysterious crate with the next id and a rolled variant
/// takes the first such berth. Nothing is ever half-taken: with no
/// berth, nothing moves.
///
/// `None` when no toll is due; `Some(false)` when it is due but no berth
/// waits; `Some(true)` when the exchange happened.
pub fn wanderer_retry(
    state: ShipState,
    rooms: &Rooms,
    pieces: &mut Vec<Piece>,
    held: &mut Vec<Option<Held>>,
    next_piece: &mut u32,
    rng: &mut fastrand::Rng,
) -> (r: Option<bool>)
    requires
        *old(next_piece) < u32::MAX,
    ensures
        !toll_due(state, *rooms, old(pieces)@) ==> r is None && final(pieces)@ == old(pieces)@ && final(held)@ == old(
            held,
        )@ && *final(next_piece) == *old(next_piece),
        toll_due(state, *rooms, old(pieces)@) ==> ({
            let toll = toll_of(*rooms, old(pieces)@);
            let kept = old(pieces)@.filter(not_taken(toll));
            let fits = exists|c: (RoomId, u8, u8)|
                aboard_berth(*rooms, c) && #[trigger] fits_at(
                    *rooms,
                    old(pieces)@,
                    *old(next_piece),
                    Kind::VeryMysteriousCrate,
                    c,
                );
            &&& r == Some(fits)
            &&& !fits ==> final(pieces)@ == old(pieces)@ && final(held)@ == old(held)@ && *final(next_piece) == *old(
                next_piece,
            )
            &&& fits ==> {
                &&& *final(next_piece) == *old(next_piece) + 1
                &&& final(held)@ == dropped_carries(old(held)@, toll)
                &&& exists|b: (RoomId, u8, u8), v: u8|
                    {
                        &&& v < VARIANTS
                        &&& aboard_berth(*rooms, b)
                        &&& fits_at(*rooms, old(pieces)@, *old(next_piece), Kind::VeryMysteriousCrate, b)
                        &&& forall|c: (RoomId, u8, u8)|
                            aboard_berth(*rooms, c) && scanned_before(c, b) ==> !#[trigger] fits_at(
                                *rooms,
                                old(pieces)@,
                                *old(next_piece),
                                Kind::VeryMysteriousCrate,
                                c,
                            )
                        &&& final(pieces)@ == kept.push(
                            Piece {
                                id: *old(next_piece),
                                kind: Kind::VeryMysteriousCrate,
                                variant: v,
                                gnawed: false,
                                loc: Loc::Hold { room: b.0, x: b.1, y: b.2 },
                            },
                        )
                    }
            }
        }),
{
    if state != ShipState::Docked(WANDERER) {
        return None;
    }
    let room = match rooms.find(RoomKind::Trade) {
        Some(room) => room,
        None => {
            proof {
                assert(first_of_kind(*rooms, RoomKind::Trade, None));
                lemma_first_of_kind_unique(*rooms, RoomKind::Trade, None, room_of_kind(*rooms, RoomKind::Trade));
            }
            return None;
        },
    };
    proof {
        assert(first_of_kind(*rooms, RoomKind::Trade, Some(room)));
        lemma_first_of_kind_unique(*rooms, RoomKind::Trade, Some(room), room_of_kind(*rooms, RoomKind::Trade));
    }
    let offered = offered_at(rooms, pieces.as_slice(), room);
    if offered.len() < WANDERER_TOLL as usize {
        return None;
    }
    let mut toll: Vec<u32> = Vec::new();
    let mut t: usize = 0;
    while t < WANDERER_TOLL as usize
        invariant
            t <= WANDERER_TOLL,
            offered@.len() >= WANDERER_TOLL,
            toll@ == offered@.take(t as int),
        decreases WANDERER_TOLL - t,
    {
        toll.push(offered[t]);
        proof {
            assert(offered@.take(t + 1) =~= offered@.take(t as int).push(offered@[t as int]));
        }
        t = t + 1;
    }
    let berth = first_fit(rooms, pieces.as_slice(), *next_piece, Kind::VeryMysteriousCrate);
    let (broom, x, y) = match berth {
        Some(b) => b,
        None => return Some(false),
    };
    proof {
        assert(fits_at(*rooms, pieces@, *next_piece, Kind::VeryMysteriousCrate, (broom, x, y)));
    }
    let ghost h0 = held@;
    let mut k: usize = 0;
    while k < held.len()
        invariant
            held@.len() == h0.len(),
            k <= h0.len(),
            forall|j: int| 0 <= j < k ==> #[trigger] held@[j] == dropped_carries(h0, toll@)[j],
            forall|j: int| k <= j < h0.len() ==> #[trigger] held@[j] == h0[j],
        decreases h0.len() - k,
    {
        if let Some(h) = held[k] {
            if among(&toll, h.piece) {
                held.set(k, None);
            }
        }
        k = k + 1;
    }
    assert(held@ =~= dropped_carries(h0, toll@));
    let ghost p0 = pieces@;
    let ghost keep = not_taken(toll@);
    let mut kept: Vec<Piece> = Vec::new();
    let mut i: usize = 0;
    while i < pieces.len()
        invariant
            pieces@ == p0,
            i <= p0.len(),
            keep == not_taken(toll@),
            kept@ == p0.take(i as int).filter(keep),
        decreases p0.len() - i,
    {
        let p = pieces[i];
        proof {
            reveal(Seq::filter);
            assert(p0.take(i + 1).drop_last() =~= p0.take(i as int));
            assert(p0.take(i + 1).last() == p);
        }
        if !among(&toll, p.id) {
            kept.push(p);
        }
        i = i + 1;
    }
    proof {
        assert(p0.take(p0.len() as int) =~= p0);
    }
    let variant = roll_variant(rng);
    kept.push(
        Piece {
            id: *next_piece,
            kind: Kind::VeryMysteriousCrate,
            variant,
            gnawed: false,
            loc: Loc::Hold { room: broom, x, y },
        },
    );
    *pieces = kept;
    *next_piece = *next_piece + 1;
    Some(true)
}

// ---------------------------------------------------------------------
// Walking cargo aboard
// ---------------------------------------------------------------------

/// Whether `r` is what the first-fit scan answers for `kind` with id
/// `id`: the first berth aboard it fits, or none when it fits nowhere
/// (or is a covering, which has no occupancy berth).
pub open spec fn first_fit_answer(rooms: Rooms, pieces: Seq<Piece>, id: u32, kind: Kind, r: Option<(RoomId, u8, u8)>) -> bool {
    if kind.spec_covering() {
        r is None
    } else {
        match r {
            Some(b) => aboard_berth(rooms, b) && fits_at(rooms, pieces, id, kind, b) && forall|c: (RoomId, u8, u8)|
                aboard_berth(rooms, c) && scanned_before(c, b) ==> !#[trigger] fits_at(rooms, pieces, id, kind, c),
            None => forall|c: (RoomId, u8, u8)| aboard_berth(rooms, c) ==> !#[trigger] fits_at(rooms, pieces, id, kind, c),
        }
    }
}

/// Whether `r` is what the dressing scan answers for covering `kind`.
pub open spec fn dress_fit_answer(rooms: Rooms, pieces: Seq<Piece>, id: u32, kind: Kind, r: Option<(RoomId, u8, u8)>) -> bool {
    match r {
        Some(b) => aboard_berth(rooms, b) && lays_at(rooms, pieces, id, kind, b) && forall|c: (RoomId, u8, u8)|
            aboard_berth(rooms, c) && scanned_before(c, b) ==> !#[trigger] lays_at(rooms, pieces, id, kind, c),
        None => forall|c: (RoomId, u8, u8)| aboard_berth(rooms, c) ==> !#[trigger] lays_at(rooms, pieces, id, kind, c),
    }
}

/// Two different berths are scanned one before the other.
proof fn lemma_scan_total(a: (RoomId, u8, u8), b: (RoomId, u8, u8))
    requires
        a != b,
    ensures
        scanned_before(a, b) || scanned_before(b, a),
{
}

/// Where piece `id` of `kind` walks to aboard, as a value: a covering
/// to the first anchor it may be laid at, anything else to the first
/// berth it fits; none when there is no such place.
pub open spec fn walk_berth(rooms: Rooms, pieces: Seq<Piece>, id: u32, kind: Kind) -> Option<Loc> {
    if kind.spec_covering() {
        match choose|r: Option<(RoomId, u8, u8)>| dress_fit_answer(rooms, pieces, id, kind, r) {
            Some(b) => Some(Loc::Laid { room: b.0, x: b.1, y: b.2 }),
            None => None,
        }
    } else {
        match choose|r: Option<(RoomId, u8, u8)>| first_fit_answer(rooms, pieces, id, kind, r) {
            Some(b) => Some(Loc::Hold { room: b.0, x: b.1, y: b.2 }),
            None => None,
        }
    }
}

/// The scan answers are one answer each.
proof fn lemma_fit_answers_unique(
    rooms: Rooms,
    pieces: Seq<Piece>,
    id: u32,
    kind: Kind,
    a: Option<(RoomId, u8, u8)>,
    b: Option<(RoomId, u8, u8)>,
    dress: bool,
)
    requires
        dress ==> dress_fit_answer(rooms, pieces, id, kind, a) && dress_fit_answer(rooms, pieces, id, kind, b),
        !dress ==> first_fit_answer(rooms, pieces, id, kind, a) && first_fit_answer(rooms, pieces, id, kind, b),
    ensures
        a == b,
{
    if !dress && kind.spec_covering() {
    } else {
        match (a, b) {
            (Some(x), Some(y)) => {
                if x != y {
                    lemma_scan_total(x, y);
                }
            },
            (Some(x), None) => {},
            (None, Some(y)) => {},
            (None, None) => {},
        }
    }
}

/// What walking each of `ids` aboard in turn makes of the board: each
/// found piece moves to where it walks to, when there is such a place.
pub open spec fn walked(rooms: Rooms, pieces: Seq<Piece>, ids: Seq<u32>) -> Seq<Piece>
    decreases ids.len(),
{
    if ids.len() == 0 {
        pieces
    } else {
        let p1 = walked(rooms, pieces, ids.drop_last());
        match first_with_id(p1, ids.last(), 0) {
            Some(i) => match walk_berth(rooms, p1, ids.last(), p1[i].kind) {
                Some(loc) => p1.update(i, Piece { loc, ..p1[i] }),
                None => p1,
            },
            None => p1,
        }
    }
}

/// Whether piece `p` of the board is the player's and berthed in
/// `room`.
pub open spec fn strays_in(rooms: Rooms, pieces: Seq<Piece>, room: RoomId) -> spec_fn(Piece) -> bool {
    |p: Piece| spec_loc_room(pieces, p.loc, pieces.len() as nat) == Some(room) && spec_player_owned(rooms, p.loc)
}

/// The ids of the player's pieces berthed in `room`, in stowage order.
pub open spec fn strays_of(rooms: Rooms, pieces: Seq<Piece>, room: RoomId) -> Seq<u32> {
    pieces.filter(strays_in(rooms, pieces, room)).map_values(|p: Piece| p.id)
}

/// Where piece `id` of `kind` walks to aboard.
fn walk_target(rooms: &Rooms, pieces: &[Piece], id: u32, kind: Kind) -> (r: Option<Loc>)
    ensures
        r == walk_berth(*rooms, pieces@, id, kind),
{
    if kind.covering() {
        let b = dress_fit(rooms, pieces, id, kind);
        proof {
            let other = choose|r: Option<(RoomId, u8, u8)>| dress_fit_answer(*rooms, pieces@, id, kind, r);
            assert(dress_fit_answer(*rooms, pieces@, id, kind, b));
            lemma_fit_answers_unique(*rooms, pieces@, id, kind, b, other, true);
        }
        match b {
            Some((room, x, y)) => Some(Loc::Laid { room, x, y }),
            None => None,
        }
    } else {
        let b = first_fit(rooms, pieces, id, kind);
        proof {
            let other = choose|r: Option<(RoomId, u8, u8)>| first_fit_answer(*rooms, pieces@, id, kind, r);
            assert(first_fit_answer(*rooms, pieces@, id, kind, b));
            lemma_fit_answers_unique(*rooms, pieces@, id, kind, b, other, false);
        }
        match b {
            Some((room, x, y)) => Some(Loc::Hold { room, x, y }),
            None => None,
        }
    }
}

/// Walk every piece of the player's out of `room` to its first legal
/// berth aboard, in stowage order — a covering to the first place it may
/// be laid. A piece with nowhere to go stays where it is. Conservation
/// before convenience.
pub fn walk_aboard(rooms: &Rooms, pieces: &mut Vec<Piece>, room: RoomId)
    ensures
        final(pieces)@ == walked(*rooms, old(pieces)@, strays_of(*rooms, old(pieces)@, room)),
{
    let ghost p0 = pieces@;
    let ghost keep = strays_in(*rooms, p0, room);
    let mut strays: Vec<u32> = Vec::new();
    let mut i: usize = 0;
    while i < pieces.len()
        invariant
            pieces@ == p0,
            i <= p0.len(),
            keep == strays_in(*rooms, p0, room),
            strays@ == p0.take(i as int).filter(keep).map_values(|p: Piece| p.id),
        decreases p0.len() - i,
    {
        let p = pieces[i];
        proof {
            reveal(Seq::filter);
            assert(p0.take(i + 1).drop_last() =~= p0.take(i as int));
            assert(p0.take(i + 1).last() == p);
        }
        let ghost before = strays@;
        if p.loc.room(pieces.as_slice()) == Some(room) && player_owned(rooms, pieces.as_slice(), p.loc) {
            strays.push(p.id);
            proof {
                assert(p0.take(i + 1).filter(keep) == p0.take(i as int).filter(keep).push(p));
                assert(strays@ =~= p0.take(i + 1).filter(keep).map_values(|q: Piece| q.id));
            }
        } else {
            proof {
                assert(p0.take(i + 1).filter(keep) == p0.take(i as int).filter(keep));
            }
        }
        i = i + 1;
    }
    proof {
        assert(p0.take(p0.len() as int) =~= p0);
    }
    let ghost all = strays@;
    let mut k: usize = 0;
    assert(all.take(0) =~= Seq::<u32>::empty());
    while k < strays.len()
        invariant
            k <= all.len(),
            strays@ == all,
            pieces@ == walked(*rooms, p0, all.take(k as int)),
        decreases all.len() - k,
    {
        let id = strays[k];
        proof {
            assert(all.take(k + 1).drop_last() =~= all.take(k as int));
            assert(all.take(k + 1).last() == id);
        }
        match find_piece(pieces.as_slice(), id) {
            Some(index) => {
                let piece = pieces[index];
                match walk_target(rooms, pieces.as_slice(), id, piece.kind) {
                    Some(loc) => {
                        pieces.set(index, Piece { loc, ..piece });
                    },
                    None => {},
                }
            },
            None => {},
        }
        k = k + 1;
    }
    proof {
        assert(all.take(all.len() as int) =~= all);
    }
}

} // verus!
