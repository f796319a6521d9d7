//! The economy that survived its interface.
//!
//! What is here is *economy*: [`VALUE`], the per-visit ±1 jitter, the
//! wants row, the gnaw malus, the Umbra Market's gnaw premium, the
//! well-lit-art bonus, and the arithmetic a room does when it answers a
//! proposal with goods.
//!
//! Each dock generates a fresh visit — stock leaning toward what the
//! station produces, a jittered copy of its value table, and a top-three
//! wants list — all derived from `splitmix(seed, station, visit)`, so a
//! save can rebuild the whole thing without storing it.

use vstd::prelude::*;
use crate::sim::cargo::{
    KIND_COUNT, Kind, Loc, Piece, Tag, lamp_lit, lit_adjacent, light_source, lights_cell, spec_lamp_lit,
    spec_suspicious,
};
use crate::sim::map::{GUILD, HERMITAGE, POI_COUNT, PoiId, UMBRA};
use crate::sim::room::{RoomId, Rooms, Tile};
use crate::sim::{spec_splitmix, splitmix};
use vstd::relations::{sorted_by, total_ordering};

verus! {

/// One station visit's trading state: nothing but the derived facts.
///
/// Deliberately currency-free: nothing here is a player-visible balance.
/// Values stay internal and trades settle piece-for-piece.
#[derive(Clone, Copy, Debug, PartialEq, Eq)]
pub struct Barter {
    pub station: PoiId,
    /// How many times this station has been visited, 1-based.
    pub visit: u32,
    /// Top-three kinds the station values this visit, with 1–3 want pips.
    pub wants: [(Kind, u8); 3],
}

/// How much each station values each kind, `0..=6`.
///
/// Rows follow map order (Venus, Earth, Mars, Jupiter, Uranus, Neptune,
/// Guild, Saturn, Umbra Market, Hermitage, comet, `???`), columns follow
/// [`Kind::index`] order. A zero doubles as "local produce": stations
/// stock the kind they do not value. Every row keeps at least three kinds
/// at 2 or above so the wants list survives the ±1 jitter, and both
/// suspicious columns are 4 everywhere but the Guild, which seizes rather
/// than pays. The porthole is the cheapest glass there is, worth a
/// little everywhere; the bay window is Saturn's own produce and dear
/// everywhere else. The comet and `???` never open a trade room, so
/// their rows are placeholders kept valid for the rules above.
pub const VALUE: [[u8; KIND_COUNT]; POI_COUNT] = [
    [0, 1, 2, 1, 3, 2, 3, 5, 4, 1, 4, 3, 5, 4, 2, 1, 5, 4, 4, 4, 6, 3, 5, 3, 4, 3, 3, 2, 2, 2, 1, 3],
    [4, 3, 0, 2, 4, 1, 2, 3, 4, 1, 4, 2, 5, 2, 2, 1, 2, 2, 2, 3, 1, 4, 2, 3, 2, 2, 4, 2, 2, 3, 1, 3],
    [2, 1, 4, 0, 1, 3, 2, 2, 4, 1, 4, 2, 5, 1, 2, 1, 2, 2, 3, 3, 2, 3, 3, 4, 2, 2, 3, 2, 2, 3, 1, 3],
    [1, 2, 4, 3, 5, 0, 1, 2, 4, 1, 4, 2, 5, 1, 1, 1, 3, 2, 2, 3, 2, 2, 2, 2, 3, 3, 3, 2, 2, 2, 1, 3],
    [2, 3, 3, 2, 4, 4, 0, 1, 4, 1, 4, 2, 5, 1, 1, 1, 2, 3, 2, 2, 3, 2, 2, 2, 3, 3, 3, 2, 2, 2, 1, 3],
    [3, 2, 4, 3, 3, 2, 1, 0, 4, 1, 4, 2, 5, 2, 1, 1, 2, 2, 3, 2, 3, 2, 3, 2, 3, 3, 3, 2, 2, 2, 1, 3],
    [2, 2, 2, 2, 2, 2, 2, 2, 0, 1, 0, 2, 3, 1, 0, 1, 1, 2, 1, 2, 1, 1, 1, 2, 1, 1, 2, 1, 1, 2, 1, 3],
    [1, 3, 2, 6, 1, 0, 2, 1, 4, 1, 4, 1, 5, 1, 1, 1, 4, 4, 3, 5, 3, 5, 3, 4, 3, 4, 3, 3, 3, 3, 1, 0],
    [3, 2, 1, 1, 2, 0, 5, 4, 4, 3, 4, 3, 0, 2, 2, 1, 0, 0, 0, 3, 4, 3, 3, 2, 0, 5, 2, 1, 1, 2, 1, 3],
    [1, 1, 3, 1, 4, 1, 1, 2, 4, 2, 4, 2, 3, 3, 1, 1, 2, 3, 2, 6, 3, 4, 5, 3, 4, 5, 2, 2, 2, 1, 1, 3],
    [2, 2, 2, 2, 2, 2, 2, 2, 4, 2, 4, 2, 2, 2, 2, 1, 1, 1, 1, 1, 2, 2, 2, 2, 2, 2, 2, 2, 2, 2, 1, 3],
    [2, 2, 2, 2, 2, 2, 2, 2, 4, 2, 4, 2, 2, 2, 2, 1, 1, 1, 1, 1, 3, 2, 2, 2, 3, 2, 2, 2, 2, 2, 1, 3],
];

/// Ceiling for jittered per-visit values.
pub const VALUE_MAX: u8 = 6;

/// Fewest goods a station puts out.
pub const STOCK_MIN: usize = 2;

/// Most goods a station puts out in one visit.
pub const STOCK_MAX: usize = 4;

/// Chance a stock roll picks from the station's produce, in tenths.
pub const PRODUCE_CHANCE: u64 = 7;

/// Chance denominator for a far station's crate offer: one visit in five.
pub const CRATE_CHANCE: u64 = 5;

/// Stream salts under the visit hash, so the crate roll, the stock count,
/// and each stocked kind draw independent values.
pub const SALT_CRATE: u64 = 1;

pub const SALT_COUNT: u64 = 2;

pub const SALT_KIND: u64 = 0x100;

pub const SALT_MYSTERY: u64 = 0x200;

/// What a rat's bite knocks off a piece's value, floored at zero.
pub const GNAW_MALUS: u8 = 2;

/// What lamplight adds to a well-lit painting's price.
pub const LIT_BONUS: u8 = 1;

/// The markup a room adds to each piece of its own stock, so even
/// worthless goods are never free.
pub const STOCK_MARKUP: u32 = 1;

/// One hash per (seed, station, visit) triple.
pub open spec fn spec_visit_hash(seed: u64, station: PoiId, visit: u32) -> u64 {
    spec_splitmix(spec_splitmix(seed, station as u64), visit as u64)
}

/// One hash per (seed, station, visit) triple, the root of everything a
/// visit derives.
fn visit_hash(seed: u64, station: PoiId, visit: u32) -> (r: u64)
    ensures
        r == spec_visit_hash(seed, station, visit),
{
    splitmix(splitmix(seed, station as u64), visit as u64)
}

/// A base value nudged by one roll: one less (floored at zero), the same,
/// or one more (capped at [`VALUE_MAX`]).
pub open spec fn jitter(base: u8, roll: u64) -> u8 {
    if roll % 3 == 0 {
        if base == 0 {
            0
        } else {
            (base - 1) as u8
        }
    } else if roll % 3 == 1 {
        base
    } else if base + 1 > VALUE_MAX {
        VALUE_MAX
    } else {
        (base + 1) as u8
    }
}

/// Whether column `k` is one the Guild pins to zero: it seizes crates at
/// the dock, it never pays for them.
pub open spec fn guild_pinned(station: PoiId, k: int) -> bool {
    station == GUILD && (k == Kind::SuspiciousCrate.spec_index() || k == Kind::VeryMysteriousCrate.spec_index())
}

/// This visit's value of column `k`.
pub open spec fn spec_visit_value(seed: u64, station: PoiId, visit: u32, k: int) -> u8 {
    if guild_pinned(station, k) {
        0
    } else {
        jitter(VALUE[station as int][k], spec_splitmix(spec_visit_hash(seed, station, visit), k as u64))
    }
}

/// This visit's value table, column by column.
pub open spec fn visit_row(seed: u64, station: PoiId, visit: u32) -> Seq<u8> {
    Seq::new(KIND_COUNT as nat, |k: int| spec_visit_value(seed, station, visit, k))
}

/// This visit's value table: the station row jittered by ±1 per kind,
/// clamped to `0..=6`. Pure, so saves rebuild it instead of storing it.
/// One pin: the Guild's crate valuation stays zero.
pub fn visit_values(seed: u64, station: PoiId, visit: u32) -> (r: [u8; KIND_COUNT])
    requires
        (station as int) < POI_COUNT,
    ensures
        r@ == visit_row(seed, station, visit),
{
    let h = visit_hash(seed, station, visit);
    let mut values = [0u8; KIND_COUNT];
    let mut k: usize = 0;
    while k < KIND_COUNT
        invariant
            k <= KIND_COUNT,
            (station as int) < POI_COUNT,
            h == spec_visit_hash(seed, station, visit),
            forall|j: int| 0 <= j < k ==> #[trigger] values[j] == spec_visit_value(seed, station, visit, j),
        decreases KIND_COUNT - k,
    {
        let base = VALUE[station as usize][k];
        let v = if station == GUILD && (k == Kind::SuspiciousCrate.index() || k
            == Kind::VeryMysteriousCrate.index()) {
            0
        } else {
            let roll = splitmix(h, k as u64) % 3;
            if roll == 0 {
                base.saturating_sub(1)
            } else if roll == 1 {
                base
            } else if base + 1 > VALUE_MAX {
                VALUE_MAX
            } else {
                base + 1
            }
        };
        values[k] = v;
        k = k + 1;
    }
    assert(values@ =~= visit_row(seed, station, visit));
    values
}

/// Whether column `k` outranks column `j` in a wants row: dearer first,
/// then lower index.
pub open spec fn outranks(values: Seq<u8>, k: int, j: int) -> bool {
    values[k] > values[j] || (values[k] == values[j] && k < j)
}

/// A want's pips: half its value, rounded up.
pub open spec fn pips(value: u8) -> u8 {
    ((value + 1) / 2) as u8
}

/// Whether `r` is the wants row of `values`: the three best-ranked
/// nonzero columns, best first, with their pips.
pub open spec fn is_wants(values: Seq<u8>, r: [(Kind, u8); 3]) -> bool {
    exists|a: int, b: int, c: int|
        0 <= a < KIND_COUNT && 0 <= b < KIND_COUNT && 0 <= c < KIND_COUNT && values[a] > 0 && values[b] > 0
            && values[c] > 0 && outranks(values, a, b) && outranks(values, b, c) && (forall|j: int|
            0 <= j < KIND_COUNT && values[j] > 0 && j != a && j != b && j != c ==> #[trigger] outranks(
                values,
                c,
                j,
            )) && r == [
            (Kind::ALL[a], pips(values[a])),
            (Kind::ALL[b], pips(values[b])),
            (Kind::ALL[c], pips(values[c])),
        ]
}

/// Whether at least three columns of `values` are nonzero.
pub open spec fn three_nonzero(values: Seq<u8>) -> bool {
    exists|a: int, b: int, c: int|
        0 <= a < b && b < c && c < KIND_COUNT && #[trigger] values[a] > 0 && #[trigger] values[b] > 0
            && #[trigger] values[c] > 0
}

/// The best-ranked nonzero column not in `skip`, if one is left.
fn best_column(values: &[u8; KIND_COUNT], skip: &[usize]) -> (r: Option<usize>)
    ensures
        r matches Some(k) ==> k < KIND_COUNT && values[k as int] > 0 && !skip@.contains(k) && forall|j: int|
            0 <= j < KIND_COUNT && values[j] > 0 && !skip@.contains(j as usize) && j != k ==> #[trigger] outranks(
                values@,
                k as int,
                j,
            ),
        r is None ==> forall|j: int|
            0 <= j < KIND_COUNT && #[trigger] values[j] > 0 ==> skip@.contains(j as usize),
{
    let mut best: Option<usize> = None;
    let mut j: usize = 0;
    while j < KIND_COUNT
        invariant
            j <= KIND_COUNT,
            best matches Some(k) ==> k < j && values[k as int] > 0 && !skip@.contains(k) && forall|i: int|
                0 <= i < j && values[i] > 0 && !skip@.contains(i as usize) && i != k ==> #[trigger] outranks(
                    values@,
                    k as int,
                    i,
                ),
            best is None ==> forall|i: int| 0 <= i < j && #[trigger] values[i] > 0 ==> skip@.contains(i as usize),
        decreases KIND_COUNT - j,
    {
        let mut skipped = false;
        let mut s: usize = 0;
        while s < skip.len()
            invariant
                s <= skip@.len(),
                skipped == exists|t: int| 0 <= t < s && skip@[t] == j,
            decreases skip@.len() - s,
        {
            if skip[s] == j {
                skipped = true;
            }
            s = s + 1;
        }
        assert(skipped == skip@.contains(j));
        let ghost old_best = best;
        if values[j] > 0 && !skipped {
            match best {
                None => {
                    best = Some(j);
                },
                Some(k) => {
                    if values[j] > values[k] {
                        best = Some(j);
                    }
                },
            }
        }
        proof {
            if let Some(k) = best {
                assert forall|i: int|
                    0 <= i < j + 1 && values[i] > 0 && !skip@.contains(i as usize) && i != k implies #[trigger] outranks(
                    values@,
                    k as int,
                    i,
                ) by {
                    if let Some(k0) = old_best {
                        if i != k0 && i < j {
                            assert(outranks(values@, k0 as int, i));
                        }
                    }
                }
            }
        }
        j = j + 1;
    }
    best
}

/// One want: column `k`'s kind and its pips.
fn want(values: &[u8; KIND_COUNT], k: usize) -> (w: (Kind, u8))
    requires
        k < KIND_COUNT,
    ensures
        w == (Kind::ALL[k as int], pips(values[k as int])),
{
    (Kind::ALL[k], ((values[k] as u16 + 1) / 2) as u8)
}

/// Top-three valued kinds this visit, zeros excluded, ties broken by kind
/// index; pips `ceil(value / 2)`, so `1..=3`.
pub fn wants(values: &[u8; KIND_COUNT]) -> (r: [(Kind, u8); 3])
    requires
        three_nonzero(values@),
    ensures
        is_wants(values@, r),
{
    let ghost (x, y, z) = choose|a: int, b: int, c: int|
        0 <= a < b && b < c && c < KIND_COUNT && #[trigger] values[a] > 0 && #[trigger] values[b] > 0
            && #[trigger] values[c] > 0;
    let mut chosen: Vec<usize> = Vec::new();
    let a = match best_column(values, chosen.as_slice()) {
        Some(k) => k,
        None => {
            proof {
                assert(values[x] > 0);
                assert(!chosen@.contains(x as usize));
            }
            return [want(values, 0), want(values, 0), want(values, 0)];
        },
    };
    chosen.push(a);
    assert(chosen@ == seq![a]);
    let b = match best_column(values, chosen.as_slice()) {
        Some(k) => k,
        None => {
            proof {
                let w = if x != a { x } else { y };
                assert(values[w] > 0);
                assert(!chosen@.contains(w as usize));
            }
            return [want(values, 0), want(values, 0), want(values, 0)];
        },
    };
    chosen.push(b);
    assert(chosen@ == seq![a, b]);
    let c = match best_column(values, chosen.as_slice()) {
        Some(k) => k,
        None => {
            proof {
                let w = if x != a && x != b { x } else if y != a && y != b { y } else { z };
                assert(values[w] > 0);
                assert(!chosen@.contains(w as usize));
            }
            return [want(values, 0), want(values, 0), want(values, 0)];
        },
    };
    let r = [want(values, a), want(values, b), want(values, c)];
    proof {
        assert(!seq![a].contains(b));
        assert(outranks(values@, a as int, b as int));
        assert(!seq![a, b].contains(c));
        assert(c != a);
        assert(outranks(values@, a as int, c as int));
        assert(outranks(values@, b as int, c as int));
        assert forall|j: int|
            0 <= j < KIND_COUNT && values[j] > 0 && j != a && j != b && j != c implies #[trigger] outranks(
            values@,
            c as int,
            j,
        ) by {
            assert(!seq![a, b].contains(j as usize));
        }
        assert(is_wants(values@, r));
    }
    r
}


/// A base of 2 or more stays nonzero under any jitter.
proof fn lemma_jitter_nonzero(base: u8, roll: u64)
    requires
        base >= 2,
    ensures
        jitter(base, roll) > 0,
{
}

/// Every station's jittered row keeps at least three nonzero columns:
/// each row holds three kinds worth 2 or more, and a jitter takes away
/// at most one.
#[verifier::rlimit(100)]
proof fn lemma_visit_three(seed: u64, station: PoiId, visit: u32, values: Seq<u8>)
    requires
        (station as int) < POI_COUNT,
        values == visit_row(seed, station, visit),
    ensures
        three_nonzero(values),
{
    if station == 0 {
        assert(VALUE[0][2] >= 2 && VALUE[0][4] >= 2 && VALUE[0][5] >= 2);
        lemma_jitter_nonzero(VALUE[0][2], spec_splitmix(spec_visit_hash(seed, station, visit), 2u64));
        lemma_jitter_nonzero(VALUE[0][4], spec_splitmix(spec_visit_hash(seed, station, visit), 4u64));
        lemma_jitter_nonzero(VALUE[0][5], spec_splitmix(spec_visit_hash(seed, station, visit), 5u64));
        assert(values[2] > 0 && values[4] > 0 && values[5] > 0);
    }
    if station == 1 {
        assert(VALUE[1][0] >= 2 && VALUE[1][1] >= 2 && VALUE[1][3] >= 2);
        lemma_jitter_nonzero(VALUE[1][0], spec_splitmix(spec_visit_hash(seed, station, visit), 0u64));
        lemma_jitter_nonzero(VALUE[1][1], spec_splitmix(spec_visit_hash(seed, station, visit), 1u64));
        lemma_jitter_nonzero(VALUE[1][3], spec_splitmix(spec_visit_hash(seed, station, visit), 3u64));
        assert(values[0] > 0 && values[1] > 0 && values[3] > 0);
    }
    if station == 2 {
        assert(VALUE[2][0] >= 2 && VALUE[2][2] >= 2 && VALUE[2][5] >= 2);
        lemma_jitter_nonzero(VALUE[2][0], spec_splitmix(spec_visit_hash(seed, station, visit), 0u64));
        lemma_jitter_nonzero(VALUE[2][2], spec_splitmix(spec_visit_hash(seed, station, visit), 2u64));
        lemma_jitter_nonzero(VALUE[2][5], spec_splitmix(spec_visit_hash(seed, station, visit), 5u64));
        assert(values[0] > 0 && values[2] > 0 && values[5] > 0);
    }
    if station == 3 {
        assert(VALUE[3][1] >= 2 && VALUE[3][2] >= 2 && VALUE[3][3] >= 2);
        lemma_jitter_nonzero(VALUE[3][1], spec_splitmix(spec_visit_hash(seed, station, visit), 1u64));
        lemma_jitter_nonzero(VALUE[3][2], spec_splitmix(spec_visit_hash(seed, station, visit), 2u64));
        lemma_jitter_nonzero(VALUE[3][3], spec_splitmix(spec_visit_hash(seed, station, visit), 3u64));
        assert(values[1] > 0 && values[2] > 0 && values[3] > 0);
    }
    if station == 4 {
        assert(VALUE[4][0] >= 2 && VALUE[4][1] >= 2 && VALUE[4][2] >= 2);
        lemma_jitter_nonzero(VALUE[4][0], spec_splitmix(spec_visit_hash(seed, station, visit), 0u64));
        lemma_jitter_nonzero(VALUE[4][1], spec_splitmix(spec_visit_hash(seed, station, visit), 1u64));
        lemma_jitter_nonzero(VALUE[4][2], spec_splitmix(spec_visit_hash(seed, station, visit), 2u64));
        assert(values[0] > 0 && values[1] > 0 && values[2] > 0);
    }
    if station == 5 {
        assert(VALUE[5][0] >= 2 && VALUE[5][1] >= 2 && VALUE[5][2] >= 2);
        lemma_jitter_nonzero(VALUE[5][0], spec_splitmix(spec_visit_hash(seed, station, visit), 0u64));
        lemma_jitter_nonzero(VALUE[5][1], spec_splitmix(spec_visit_hash(seed, station, visit), 1u64));
        lemma_jitter_nonzero(VALUE[5][2], spec_splitmix(spec_visit_hash(seed, station, visit), 2u64));
        assert(values[0] > 0 && values[1] > 0 && values[2] > 0);
    }
    if station == 6 {
        assert(VALUE[6][0] >= 2 && VALUE[6][1] >= 2 && VALUE[6][2] >= 2);
        lemma_jitter_nonzero(VALUE[6][0], spec_splitmix(spec_visit_hash(seed, station, visit), 0u64));
        lemma_jitter_nonzero(VALUE[6][1], spec_splitmix(spec_visit_hash(seed, station, visit), 1u64));
        lemma_jitter_nonzero(VALUE[6][2], spec_splitmix(spec_visit_hash(seed, station, visit), 2u64));
        assert(values[0] > 0 && values[1] > 0 && values[2] > 0);
    }
    if station == 7 {
        assert(VALUE[7][1] >= 2 && VALUE[7][2] >= 2 && VALUE[7][3] >= 2);
        lemma_jitter_nonzero(VALUE[7][1], spec_splitmix(spec_visit_hash(seed, station, visit), 1u64));
        lemma_jitter_nonzero(VALUE[7][2], spec_splitmix(spec_visit_hash(seed, station, visit), 2u64));
        lemma_jitter_nonzero(VALUE[7][3], spec_splitmix(spec_visit_hash(seed, station, visit), 3u64));
        assert(values[1] > 0 && values[2] > 0 && values[3] > 0);
    }
    if station == 8 {
        assert(VALUE[8][0] >= 2 && VALUE[8][1] >= 2 && VALUE[8][4] >= 2);
        lemma_jitter_nonzero(VALUE[8][0], spec_splitmix(spec_visit_hash(seed, station, visit), 0u64));
        lemma_jitter_nonzero(VALUE[8][1], spec_splitmix(spec_visit_hash(seed, station, visit), 1u64));
        lemma_jitter_nonzero(VALUE[8][4], spec_splitmix(spec_visit_hash(seed, station, visit), 4u64));
        assert(values[0] > 0 && values[1] > 0 && values[4] > 0);
    }
    if station == 9 {
        assert(VALUE[9][2] >= 2 && VALUE[9][4] >= 2 && VALUE[9][7] >= 2);
        lemma_jitter_nonzero(VALUE[9][2], spec_splitmix(spec_visit_hash(seed, station, visit), 2u64));
        lemma_jitter_nonzero(VALUE[9][4], spec_splitmix(spec_visit_hash(seed, station, visit), 4u64));
        lemma_jitter_nonzero(VALUE[9][7], spec_splitmix(spec_visit_hash(seed, station, visit), 7u64));
        assert(values[2] > 0 && values[4] > 0 && values[7] > 0);
    }
    if station == 10 {
        assert(VALUE[10][0] >= 2 && VALUE[10][1] >= 2 && VALUE[10][2] >= 2);
        lemma_jitter_nonzero(VALUE[10][0], spec_splitmix(spec_visit_hash(seed, station, visit), 0u64));
        lemma_jitter_nonzero(VALUE[10][1], spec_splitmix(spec_visit_hash(seed, station, visit), 1u64));
        lemma_jitter_nonzero(VALUE[10][2], spec_splitmix(spec_visit_hash(seed, station, visit), 2u64));
        assert(values[0] > 0 && values[1] > 0 && values[2] > 0);
    }
    if station == 11 {
        assert(VALUE[11][0] >= 2 && VALUE[11][1] >= 2 && VALUE[11][2] >= 2);
        lemma_jitter_nonzero(VALUE[11][0], spec_splitmix(spec_visit_hash(seed, station, visit), 0u64));
        lemma_jitter_nonzero(VALUE[11][1], spec_splitmix(spec_visit_hash(seed, station, visit), 1u64));
        lemma_jitter_nonzero(VALUE[11][2], spec_splitmix(spec_visit_hash(seed, station, visit), 2u64));
        assert(values[0] > 0 && values[1] > 0 && values[2] > 0);
    }
}

/// This visit's derived state: the wants row, and nothing else.
pub fn open(seed: u64, station: PoiId, visit: u32) -> (r: Barter)
    requires
        (station as int) < POI_COUNT,
    ensures
        r.station == station,
        r.visit == visit,
        is_wants(visit_row(seed, station, visit), r.wants),
{
    let values = visit_values(seed, station, visit);
    proof {
        lemma_visit_three(seed, station, visit, values@);
    }
    Barter { station, visit, wants: wants(&values) }
}


/// Whether `kind` ever appears on ordinary stock: suspicious crates enter
/// through the far stations' special offer, very mysterious crates only
/// through ???, and casino chips only through losing.
pub open spec fn stockable(kind: Kind) -> bool {
    kind != Kind::SuspiciousCrate && kind != Kind::VeryMysteriousCrate && kind != Kind::CasinoChip
}

/// Whether `kind` is `station`'s local produce: stockable, and valued at
/// zero there.
pub open spec fn produce(station: PoiId, kind: Kind) -> bool {
    stockable(kind) && VALUE[station as int][kind.spec_index()] == 0
}

/// Whether `station` has any produce at all.
pub open spec fn has_produce(station: PoiId) -> bool {
    exists|k: int| 0 <= k < KIND_COUNT && #[trigger] produce(station, Kind::ALL[k])
}

/// The stockable kinds among the first `n`, in index order, whose
/// produce-ness is `from_produce`.
pub open spec fn pool_upto(station: PoiId, from_produce: bool, n: int) -> Seq<Kind>
    decreases n,
{
    if n <= 0 {
        Seq::empty()
    } else {
        let kind = Kind::ALL[n - 1];
        let rest = pool_upto(station, from_produce, n - 1);
        if stockable(kind) && produce(station, kind) == from_produce {
            rest.push(kind)
        } else {
            rest
        }
    }
}

/// A kind that qualifies lands in the pool.
proof fn lemma_pool_holds(station: PoiId, from_produce: bool, k: int, n: int)
    requires
        0 <= k < n,
        stockable(Kind::ALL[k]) && produce(station, Kind::ALL[k]) == from_produce,
    ensures
        pool_upto(station, from_produce, n).len() > 0,
    decreases n,
{
    if k < n - 1 {
        lemma_pool_holds(station, from_produce, k, n - 1);
    }
}

/// Whether a stock roll takes the station's produce.
pub open spec fn rolls_produce(station: PoiId, roll: u64) -> bool {
    has_produce(station) && roll % 10 < PRODUCE_CHANCE
}

/// One stocked kind from one roll: the `(roll / 10)`-th kind, cycling, of
/// the pool the roll picked.
pub open spec fn spec_stock_kind(station: PoiId, roll: u64) -> Kind {
    let pool = pool_upto(station, rolls_produce(station, roll), KIND_COUNT as int);
    pool[((roll / 10) % (pool.len() as u64)) as int]
}

/// Every station stocks something beyond its produce, and a station with
/// produce stocks it: neither pool is ever empty when a roll picks it.
proof fn lemma_pools_filled(station: PoiId, roll: u64)
    requires
        (station as int) < POI_COUNT,
    ensures
        pool_upto(station, rolls_produce(station, roll), KIND_COUNT as int).len() > 0,
{
    if rolls_produce(station, roll) {
        let k = choose|k: int| 0 <= k < KIND_COUNT && #[trigger] produce(station, Kind::ALL[k]);
        lemma_pool_holds(station, true, k, KIND_COUNT as int);
    } else {
        if station == 0 {
            assert(VALUE[0][2] >= 2);
            lemma_pool_holds(station, false, 2, KIND_COUNT as int);
        }
        if station == 1 {
            assert(VALUE[1][0] >= 2);
            lemma_pool_holds(station, false, 0, KIND_COUNT as int);
        }
        if station == 2 {
            assert(VALUE[2][0] >= 2);
            lemma_pool_holds(station, false, 0, KIND_COUNT as int);
        }
        if station == 3 {
            assert(VALUE[3][1] >= 2);
            lemma_pool_holds(station, false, 1, KIND_COUNT as int);
        }
        if station == 4 {
            assert(VALUE[4][0] >= 2);
            lemma_pool_holds(station, false, 0, KIND_COUNT as int);
        }
        if station == 5 {
            assert(VALUE[5][0] >= 2);
            lemma_pool_holds(station, false, 0, KIND_COUNT as int);
        }
        if station == 6 {
            assert(VALUE[6][0] >= 2);
            lemma_pool_holds(station, false, 0, KIND_COUNT as int);
        }
        if station == 7 {
            assert(VALUE[7][1] >= 2);
            lemma_pool_holds(station, false, 1, KIND_COUNT as int);
        }
        if station == 8 {
            assert(VALUE[8][0] >= 2);
            lemma_pool_holds(station, false, 0, KIND_COUNT as int);
        }
        if station == 9 {
            assert(VALUE[9][2] >= 2);
            lemma_pool_holds(station, false, 2, KIND_COUNT as int);
        }
        if station == 10 {
            assert(VALUE[10][0] >= 2);
            lemma_pool_holds(station, false, 0, KIND_COUNT as int);
        }
        if station == 11 {
            assert(VALUE[11][0] >= 2);
            lemma_pool_holds(station, false, 0, KIND_COUNT as int);
        }
    }
}

/// One stocked kind from one roll: 70% the station's produce (base value
/// zero), 30% uniform over the others. Crates are excluded on both
/// branches, which also empties the Guild's produce pool, making it stock
/// a uniform spread.
fn stock_kind(station: PoiId, roll: u64) -> (r: Kind)
    requires
        (station as int) < POI_COUNT,
    ensures
        r == spec_stock_kind(station, roll),
{
    let row = station as usize;
    let mut any_produce = false;
    let mut k: usize = 0;
    while k < KIND_COUNT
        invariant
            k <= KIND_COUNT,
            row == station as usize,
            (station as int) < POI_COUNT,
            any_produce == exists|j: int| 0 <= j < k && #[trigger] produce(station, Kind::ALL[j]),
        decreases KIND_COUNT - k,
    {
        let kind = Kind::ALL[k];
        let local = kind != Kind::SuspiciousCrate && kind != Kind::VeryMysteriousCrate && kind != Kind::CasinoChip
            && VALUE[row][kind.index()] == 0;
        assert(local == produce(station, Kind::ALL[k as int]));
        if local {
            any_produce = true;
        }
        proof {
            if !local {
                assert forall|j: int| 0 <= j < k + 1 && #[trigger] produce(station, Kind::ALL[j]) implies j < k by {}
            }
        }
        k = k + 1;
    }
    let from_produce = any_produce && roll % 10 < PRODUCE_CHANCE;
    let mut pool: Vec<Kind> = Vec::new();
    let mut k: usize = 0;
    while k < KIND_COUNT
        invariant
            k <= KIND_COUNT,
            row == station as usize,
            (station as int) < POI_COUNT,
            pool@ == pool_upto(station, from_produce, k as int),
        decreases KIND_COUNT - k,
    {
        let kind = Kind::ALL[k];
        let stock = kind != Kind::SuspiciousCrate && kind != Kind::VeryMysteriousCrate && kind != Kind::CasinoChip;
        let local = stock && VALUE[row][kind.index()] == 0;
        if stock && local == from_produce {
            pool.push(kind);
        }
        k = k + 1;
    }
    proof {
        lemma_pools_filled(station, roll);
    }
    let n = pool.len() as u64;
    pool[((roll / 10) % n) as usize]
}


/// Whether some piece of `aboard` is a suspicious crate.
pub open spec fn crate_aboard(aboard: Seq<Piece>) -> bool {
    exists|i: int| 0 <= i < aboard.len() && #[trigger] spec_suspicious(aboard[i].kind)
}

/// Whether this visit's roll offers a crate: a far station (not the Guild,
/// not the Hermitage), no crate aboard already, and the one-in-five roll.
pub open spec fn offers_crate(seed: u64, station: PoiId, visit: u32, aboard: Seq<Piece>) -> bool {
    &&& station != GUILD
    &&& station != HERMITAGE
    &&& !crate_aboard(aboard)
    &&& spec_splitmix(spec_visit_hash(seed, station, visit), SALT_CRATE) % CRATE_CHANCE == 0
}

/// What a station puts on its `Stock` tiles this visit, in tile order:
/// the special offers first (a crate, then a mysterious crate after the
/// parade), then the ordinary rolls, never more than the room's tiles or
/// [`STOCK_MAX`].
pub open spec fn spec_stock_kinds(
    seed: u64,
    station: PoiId,
    visit: u32,
    aboard: Seq<Piece>,
    karma: u32,
    paraded: bool,
    cap: usize,
) -> Seq<Kind> {
    let h = spec_visit_hash(seed, station, visit);
    let room = if cap < STOCK_MAX {
        cap as int
    } else {
        STOCK_MAX as int
    };
    let first: Seq<Kind> = if offers_crate(seed, station, visit, aboard) && 0 < room {
        seq![Kind::SuspiciousCrate]
    } else {
        Seq::empty()
    };
    let specials: Seq<Kind> = if paraded && station != GUILD && spec_splitmix(h, SALT_MYSTERY) % 4 == 0
        && first.len() < room {
        first.push(Kind::MysteriousCrate)
    } else {
        first
    };
    let wanted: int = if station == HERMITAGE {
        if karma / 2 < STOCK_MAX {
            (karma / 2) as int
        } else {
            STOCK_MAX as int
        }
    } else {
        STOCK_MIN as int + (spec_splitmix(h, SALT_COUNT) % 3) as int
    };
    let left = if room > specials.len() {
        room - specials.len()
    } else {
        0
    };
    let count = if wanted < left {
        wanted
    } else {
        left
    };
    specials + Seq::new(count as nat, |i: int| spec_stock_kind(station, spec_splitmix(h, (SALT_KIND + i) as u64)))
}

/// What a station puts on its `Stock` tiles this visit, in tile order.
///
/// Two to four goods, each 70% from the station's produce and 30%
/// uniform over the rest; crates never come from those rolls. A far
/// station offers a crate one visit in five — never while `aboard`
/// already carries one anywhere — and the Guild never offers one. `cap`
/// is the room's own tile count, so the slot count is the room's.
pub fn stock_kinds(
    seed: u64,
    station: PoiId,
    visit: u32,
    aboard: &[Piece],
    karma: u32,
    paraded: bool,
    cap: usize,
) -> (r: Vec<Kind>)
    requires
        (station as int) < POI_COUNT,
    ensures
        r@ == spec_stock_kinds(seed, station, visit, aboard@, karma, paraded, cap),
{
    let h = visit_hash(seed, station, visit);
    let room = if cap < STOCK_MAX {
        cap
    } else {
        STOCK_MAX
    };
    let mut crate_here = false;
    let mut i: usize = 0;
    while i < aboard.len()
        invariant
            i <= aboard@.len(),
            crate_here == exists|j: int| 0 <= j < i && #[trigger] spec_suspicious(aboard@[j].kind),
        decreases aboard@.len() - i,
    {
        let sus = aboard[i].kind.tag() == Some(Tag::Suspicious);
        assert(sus == spec_suspicious(aboard@[i as int].kind));
        if sus {
            crate_here = true;
        }
        proof {
            if !sus {
                assert forall|j: int| 0 <= j < i + 1 && #[trigger] spec_suspicious(aboard@[j].kind) implies j < i by {}
            }
        }
        i = i + 1;
    }
    let offer_crate = station != GUILD && station != HERMITAGE && !crate_here && splitmix(h, SALT_CRATE)
        % CRATE_CHANCE == 0;
    let mut goods: Vec<Kind> = Vec::new();
    if offer_crate && goods.len() < room {
        goods.push(Kind::SuspiciousCrate);
    }
    if paraded && station != GUILD && splitmix(h, SALT_MYSTERY) % 4 == 0 && goods.len() < room {
        goods.push(Kind::MysteriousCrate);
    }
    let span = (STOCK_MAX - STOCK_MIN) as u64 + 1;
    let wanted: usize = if station == HERMITAGE {
        let half = (karma / 2) as usize;
        if half < STOCK_MAX {
            half
        } else {
            STOCK_MAX
        }
    } else {
        STOCK_MIN + (splitmix(h, SALT_COUNT) % span) as usize
    };
    let left = room.saturating_sub(goods.len());
    let count = if wanted < left {
        wanted
    } else {
        left
    };
    let ghost specials = goods@;
    let mut n: usize = 0;
    while n < count
        invariant
            n <= count,
            count <= STOCK_MAX,
            (station as int) < POI_COUNT,
            h == spec_visit_hash(seed, station, visit),
            goods@ == specials + Seq::new(
                n as nat,
                |j: int| spec_stock_kind(station, spec_splitmix(h, (SALT_KIND + j) as u64)),
            ),
        decreases count - n,
    {
        goods.push(stock_kind(station, splitmix(h, SALT_KIND + n as u64)));
        assert(goods@ =~= specials + Seq::new(
            (n + 1) as nat,
            |j: int| spec_stock_kind(station, spec_splitmix(h, (SALT_KIND + j) as u64)),
        ));
        n = n + 1;
    }
    goods
}


/// Whether `station` considers a rat's toothwork artisanal. The Umbra
/// Market does: there, the malus flips into a premium of the same size.
pub fn gnaw_loved(station: PoiId) -> (r: bool)
    ensures
        r == (station == UMBRA),
{
    station == UMBRA
}

/// Whether some piece lights cell `(x, y)` of room `room`.
pub open spec fn cell_lit(host: crate::sim::room::RoomKind, pieces: Seq<Piece>, room: RoomId, x: int, y: int) -> bool {
    0 <= x < 256 && 0 <= y < 256 && exists|i: int|
        0 <= i < pieces.len() && lights_cell(host, room, x as u8, y as u8, #[trigger] pieces[i])
}

/// Whether a lamp burns anywhere aboard: lit, in a room that rides.
pub open spec fn lamp_aboard(rooms: Rooms, pieces: Seq<Piece>) -> bool {
    exists|i: int|
        0 <= i < pieces.len() && #[trigger] spec_lamp_lit(pieces[i]) && rooms.riding_at(pieces[i].loc->Hold_room as int)
}

/// Whether `piece` is a painting shown in good light: on a calling
/// room's offer area, any lamp lit aboard; anywhere else, some cell of
/// its upright face lit by a neighbour.
pub open spec fn spec_well_lit(rooms: Rooms, piece: Piece, pieces: Seq<Piece>) -> bool {
    &&& piece.kind == Kind::Painting
    &&& match piece.loc {
        Loc::Hold { room, x, y } => if rooms.tile_at(room as int, x as int, y as int) == Some(Tile::Offer) {
            lamp_aboard(rooms, pieces)
        } else {
            match rooms.kind_at(room as int) {
                Some(host) => exists|dx: int, dy: int|
                    0 <= dx < piece.kind.spec_extent().0 && 0 <= dy < piece.kind.spec_extent().2 && #[trigger] cell_lit(
                        host,
                        pieces,
                        room,
                        x + dx,
                        y + dy,
                    ),
                None => false,
            }
        },
        _ => false,
    }
}

/// Whether a berth sits far enough from the edge of the byte range for
/// its light to be measured.
pub open spec fn measurable(piece: Piece) -> bool {
    piece.loc matches Loc::Hold { x, y, .. } ==> x < 253 && y < 253
}

/// Whether `piece` is a painting shown in good light. On an ordinary
/// berth that is literal: some cell of its face reads lit. On a calling
/// room's offer area — the only place valuation actually prices — the
/// piece is appraised under the ship's own lamplight, so any lamp lit
/// aboard counts.
fn well_lit(rooms: &Rooms, piece: &Piece, pieces: &[Piece]) -> (r: bool)
    requires
        measurable(*piece),
    ensures
        r == spec_well_lit(*rooms, *piece, pieces@),
{
    if piece.kind != Kind::Painting {
        return false;
    }
    let (room, x, y) = match piece.loc {
        Loc::Hold { room, x, y } => (room, x, y),
        _ => return false,
    };
    if rooms.tile(room, x, y) == Some(Tile::Offer) {
        let mut i: usize = 0;
        while i < pieces.len()
            invariant
                i <= pieces@.len(),
                piece.kind == Kind::Painting,
                piece.loc == (Loc::Hold { room, x, y }),
                rooms.tile_at(room as int, x as int, y as int) == Some(Tile::Offer),
                forall|j: int|
                    0 <= j < i ==> !(#[trigger] spec_lamp_lit(pieces@[j]) && rooms.riding_at(
                        pieces@[j].loc->Hold_room as int,
                    )),
            decreases pieces@.len() - i,
        {
            let other = pieces[i];
            assert(other == pieces@[i as int]);
            if lamp_lit(&other) {
                if let Loc::Hold { room: r, .. } = other.loc {
                    if rooms.riding(r) {
                        assert(spec_lamp_lit(pieces@[i as int]) && rooms.riding_at(pieces@[i as int].loc->Hold_room as int));
                        return true;
                    }
                }
            }
            i = i + 1;
        }
        return false;
    }
    let host = match rooms.kind(room) {
        Some(h) => h,
        None => return false,
    };
    let (w, h) = piece.kind.upright();
    let mut dx: u8 = 0;
    while dx < w
        invariant
            dx <= w,
            (w, h) == (piece.kind.spec_extent().0, piece.kind.spec_extent().2),
            w <= 2,
            h <= 2,
            x < 253,
            y < 253,
            piece.kind == Kind::Painting,
            piece.loc == (Loc::Hold { room, x, y }),
            rooms.tile_at(room as int, x as int, y as int) != Some(Tile::Offer),
            rooms.kind_at(room as int) == Some(host),
            forall|ex: int, ey: int| 0 <= ex < dx && 0 <= ey < h ==> !#[trigger] cell_lit(host, pieces@, room, x + ex, y + ey),
        decreases w - dx,
    {
        let mut dy: u8 = 0;
        while dy < h
            invariant
                dx < w,
                dy <= h,
                (w, h) == (piece.kind.spec_extent().0, piece.kind.spec_extent().2),
                w <= 2,
                h <= 2,
                x < 253,
                y < 253,
                piece.kind == Kind::Painting,
                piece.loc == (Loc::Hold { room, x, y }),
                rooms.tile_at(room as int, x as int, y as int) != Some(Tile::Offer),
                rooms.kind_at(room as int) == Some(host),
                forall|ex: int, ey: int|
                    (0 <= ex < dx && 0 <= ey < h) || (ex == dx && 0 <= ey < dy) ==> !#[trigger] cell_lit(
                        host,
                        pieces@,
                        room,
                        x + ex,
                        y + ey,
                    ),
            decreases h - dy,
        {
            if lit_adjacent(host, pieces, room, x + dx, y + dy) {
                assert(cell_lit(host, pieces@, room, x + dx, y + dy));
                assert(0 <= dx < piece.kind.spec_extent().0 && 0 <= dy < piece.kind.spec_extent().2);
                assert(spec_well_lit(*rooms, *piece, pieces@));
                return true;
            }
            dy = dy + 1;
        }
        dx = dx + 1;
    }
    false
}

/// One piece's worth under a visit's table: its kind's value, less the
/// gnaw malus if a rat has been at it (floored at zero) — or more by the
/// same amount where the bite is loved — plus the lamplight bonus for a
/// well-lit painting.
pub open spec fn spec_piece_value(
    rooms: Rooms,
    piece: Piece,
    pieces: Seq<Piece>,
    values: Seq<u8>,
    gnaw_love: bool,
) -> int {
    let value = values[piece.kind.spec_index()] as int;
    let value = if !piece.gnawed {
        value
    } else if gnaw_love {
        value + GNAW_MALUS
    } else if value >= GNAW_MALUS {
        value - GNAW_MALUS
    } else {
        0
    };
    if spec_well_lit(rooms, piece, pieces) {
        value + LIT_BONUS
    } else {
        value
    }
}

/// One piece's worth under this visit's table: its kind's jittered value,
/// less [`GNAW_MALUS`] if a rat has been at it — or MORE by the same
/// amount where the bite is loved (see [`gnaw_loved`]) — plus
/// [`LIT_BONUS`] for a painting under lamplight. The single per-piece
/// pricing rule; both sides of a deal read it.
pub fn piece_value(
    rooms: &Rooms,
    piece: &Piece,
    pieces: &[Piece],
    values: &[u8; KIND_COUNT],
    gnaw_love: bool,
) -> (r: u32)
    requires
        measurable(*piece),
    ensures
        r == spec_piece_value(*rooms, *piece, pieces@, values@, gnaw_love),
{
    let value = values[piece.kind.index()];
    let value: u32 = if !piece.gnawed {
        value as u32
    } else if gnaw_love {
        value as u32 + GNAW_MALUS as u32
    } else {
        value.saturating_sub(GNAW_MALUS) as u32
    };
    if well_lit(rooms, piece, pieces) {
        value + LIT_BONUS as u32
    } else {
        value
    }
}

/// Where a candidate stands in a room's preference: marked kinds first,
/// then dearer first, then by piece id.
pub open spec fn compose_key(c: (u32, u32, bool)) -> (int, int, int) {
    (
        if c.2 {
            0int
        } else {
            1int
        },
        -(c.1 as int),
        c.0 as int,
    )
}

/// Whether candidate `a` comes no later than `b` in a room's preference.
pub open spec fn key_le(a: (u32, u32, bool), b: (u32, u32, bool)) -> bool {
    let ka = compose_key(a);
    let kb = compose_key(b);
    ka.0 < kb.0 || (ka.0 == kb.0 && (ka.1 < kb.1 || (ka.1 == kb.1 && ka.2 <= kb.2)))
}

/// Whether candidates stand in preference order.
pub open spec fn ranked(s: Seq<(u32, u32, bool)>) -> bool {
    forall|i: int, j: int| 0 <= i < j < s.len() ==> key_le(#[trigger] s[i], #[trigger] s[j])
}

/// The greedy pass over the first `n` ranked candidates: what has been
/// spent, and the ids taken, each taken while the budget still covers it.
pub open spec fn greedy(s: Seq<(u32, u32, bool)>, budget: int, n: int) -> (int, Seq<u32>)
    decreases n,
{
    if n <= 0 {
        (0, Seq::empty())
    } else {
        let (spent, taken) = greedy(s, budget, n - 1);
        let c = s[n - 1];
        if spent + c.1 <= budget {
            (spent + c.1, taken.push(c.0))
        } else {
            (spent, taken)
        }
    }
}

/// Whether ids stand in ascending order.
pub open spec fn ascending(s: Seq<u32>) -> bool {
    forall|i: int, j: int| 0 <= i < j < s.len() ==> #[trigger] s[i] <= #[trigger] s[j]
}

/// Whether candidate `a` comes no later than `b` in a room's preference.
fn ranks_before(a: (u32, u32, bool), b: (u32, u32, bool)) -> (r: bool)
    ensures
        r == key_le(a, b),
{
    let ka: u8 = if a.2 {
        0
    } else {
        1
    };
    let kb: u8 = if b.2 {
        0
    } else {
        1
    };
    ka < kb || (ka == kb && (a.1 > b.1 || (a.1 == b.1 && a.0 <= b.0)))
}

/// The candidates in preference order.
fn rank_candidates(candidates: &[(u32, u32, bool)]) -> (r: Vec<(u32, u32, bool)>)
    ensures
        r@.to_multiset() == candidates@.to_multiset(),
        ranked(r@),
{
    let mut out: Vec<(u32, u32, bool)> = Vec::new();
    let mut i: usize = 0;
    assert(candidates@.take(0) =~= Seq::<(u32, u32, bool)>::empty());
    assert(out@ =~= Seq::<(u32, u32, bool)>::empty());
    while i < candidates.len()
        invariant
            i <= candidates@.len(),
            out@.to_multiset() == candidates@.take(i as int).to_multiset(),
            ranked(out@),
        decreases candidates@.len() - i,
    {
        let c = candidates[i];
        let mut p: usize = 0;
        while p < out.len() && ranks_before(out[p], c)
            invariant
                p <= out@.len(),
                ranked(out@),
                forall|j: int| 0 <= j < p ==> key_le(#[trigger] out@[j], c),
            decreases out@.len() - p,
        {
            p = p + 1;
        }
        let ghost before = out@;
        out.insert(p, c);
        proof {
            assert(candidates@.take(i + 1) =~= candidates@.take(i as int).push(c));
            assert(out@ == before.insert(p as int, c));
            vstd::seq_lib::to_multiset_insert(before, p as int, c);
            vstd::seq_lib::to_multiset_build(candidates@.take(i as int), c);
            if p < before.len() {
                assert(!key_le(before[p as int], c));
            }
            assert forall|a: int, b: int| 0 <= a < b < out@.len() implies key_le(#[trigger] out@[a], #[trigger] out@[b]) by {
                if b < p {
                    assert(out@[a] == before[a] && out@[b] == before[b]);
                } else if b == p {
                    assert(out@[a] == before[a]);
                } else if a < p {
                    assert(out@[a] == before[a] && out@[b] == before[b - 1]);
                    assert(key_le(before[a], c));
                    if p < before.len() {
                        assert(key_le(before[p as int], before[b - 1]) || p == b - 1);
                    }
                } else if a == p {
                    assert(out@[b] == before[b - 1]);
                    assert(key_le(before[p as int], before[b - 1]) || p == b - 1);
                } else {
                    assert(out@[a] == before[a - 1] && out@[b] == before[b - 1]);
                }
            }
        }
        i = i + 1;
    }
    assert(candidates@.take(candidates@.len() as int) =~= candidates@);
    out
}

/// Ids in ascending order.
pub fn sort_ids(ids: &Vec<u32>) -> (r: Vec<u32>)
    ensures
        r@.to_multiset() == ids@.to_multiset(),
        ascending(r@),
{
    let mut out: Vec<u32> = Vec::new();
    let mut i: usize = 0;
    assert(ids@.take(0) =~= Seq::<u32>::empty());
    assert(out@ =~= Seq::<u32>::empty());
    while i < ids.len()
        invariant
            i <= ids@.len(),
            out@.to_multiset() == ids@.take(i as int).to_multiset(),
            ascending(out@),
        decreases ids@.len() - i,
    {
        let c = ids[i];
        let mut p: usize = 0;
        while p < out.len() && out[p] <= c
            invariant
                p <= out@.len(),
                ascending(out@),
                forall|j: int| 0 <= j < p ==> #[trigger] out@[j] <= c,
            decreases out@.len() - p,
        {
            p = p + 1;
        }
        let ghost before = out@;
        out.insert(p, c);
        proof {
            assert(ids@.take(i + 1) =~= ids@.take(i as int).push(c));
            assert(out@ == before.insert(p as int, c));
            vstd::seq_lib::to_multiset_insert(before, p as int, c);
            vstd::seq_lib::to_multiset_build(ids@.take(i as int), c);
            assert forall|a: int, b: int| 0 <= a < b < out@.len() implies #[trigger] out@[a] <= #[trigger] out@[b] by {
                if b < p {
                    assert(out@[a] == before[a] && out@[b] == before[b]);
                } else if b == p {
                    assert(out@[a] == before[a]);
                } else if a < p {
                    assert(out@[a] == before[a] && out@[b] == before[b - 1]);
                } else if a == p {
                    assert(out@[b] == before[b - 1]);
                } else {
                    assert(out@[a] == before[a - 1] && out@[b] == before[b - 1]);
                }
            }
        }
        i = i + 1;
    }
    assert(ids@.take(ids@.len() as int) =~= ids@);
    out
}

/// Whether `r` is what a room composes from `candidates` under `budget`:
/// the greedy pile over the candidates in preference order, ids ascending.
pub open spec fn composed(budget: u32, candidates: Seq<(u32, u32, bool)>, r: Seq<u32>) -> bool {
    &&& ascending(r)
    &&& exists|ord: Seq<(u32, u32, bool)>|
        #[trigger] ranked(ord) && ord.to_multiset() == candidates.to_multiset() && r.to_multiset() == greedy(
            ord,
            budget as int,
            ord.len() as int,
        ).1.to_multiset()
}

/// Preference order as a relation.
pub open spec fn key_rel() -> spec_fn((u32, u32, bool), (u32, u32, bool)) -> bool {
    |a: (u32, u32, bool), b: (u32, u32, bool)| key_le(a, b)
}

/// Ascending ids as a relation.
pub open spec fn id_rel() -> spec_fn(u32, u32) -> bool {
    |a: u32, b: u32| a <= b
}

/// The pile a room composes, as a value: there is exactly one.
pub open spec fn spec_compose(budget: u32, candidates: Seq<(u32, u32, bool)>) -> Seq<u32> {
    choose|r: Seq<u32>| composed(budget, candidates, r)
}

/// A room's answer is a function of the proposal's value and its stock:
/// two piles composed from the same budget and candidates are the same
/// pile.
pub proof fn lemma_composed_unique(budget: u32, candidates: Seq<(u32, u32, bool)>, a: Seq<u32>, b: Seq<u32>)
    requires
        composed(budget, candidates, a),
        composed(budget, candidates, b),
    ensures
        a == b,
{
    let oa = choose|ord: Seq<(u32, u32, bool)>|
        #[trigger] ranked(ord) && ord.to_multiset() == candidates.to_multiset() && a.to_multiset() == greedy(
            ord,
            budget as int,
            ord.len() as int,
        ).1.to_multiset();
    let ob = choose|ord: Seq<(u32, u32, bool)>|
        #[trigger] ranked(ord) && ord.to_multiset() == candidates.to_multiset() && b.to_multiset() == greedy(
            ord,
            budget as int,
            ord.len() as int,
        ).1.to_multiset();
    assert forall|x: (u32, u32, bool), y: (u32, u32, bool)| #[trigger] key_rel()(x, y) && #[trigger] key_rel()(
        y,
        x,
    ) implies x == y by {
        assert(x.0 == y.0 && x.1 == y.1 && x.2 == y.2);
    }
    assert(total_ordering(key_rel()));
    assert(sorted_by(oa, key_rel()));
    assert(sorted_by(ob, key_rel()));
    vstd::seq_lib::lemma_sorted_unique(oa, ob, key_rel());
    assert(total_ordering(id_rel()));
    assert(sorted_by(a, id_rel()));
    assert(sorted_by(b, id_rel()));
    vstd::seq_lib::lemma_sorted_unique(a, b, id_rel());
}

/// The pile a room composes in answer to a proposal.
///
/// Candidates are `(piece id, asking price, marked)`; the room takes the
/// best pile its own stock offers that the proposal's value covers,
/// **preferring marked kinds** and breaking ties deterministically (dearer
/// first, then by piece id). Greedy on a handful of goods is the whole
/// arithmetic; nothing here is a search.
pub fn compose(budget: u32, candidates: &[(u32, u32, bool)]) -> (r: Vec<u32>)
    ensures
        composed(budget, candidates@, r@),
        r@ == spec_compose(budget, candidates@),
{
    let order = rank_candidates(candidates);
    let mut spent: u64 = 0;
    let mut taken: Vec<u32> = Vec::new();
    let mut i: usize = 0;
    while i < order.len()
        invariant
            i <= order@.len(),
            (spent as int, taken@) == greedy(order@, budget as int, i as int),
            spent <= budget,
        decreases order@.len() - i,
    {
        let (id, cost, _) = order[i];
        if spent + cost as u64 <= budget as u64 {
            spent = spent + cost as u64;
            taken.push(id);
        }
        i = i + 1;
    }
    let r = sort_ids(&taken);
    proof {
        assert(ranked(order@));
        assert(composed(budget, candidates@, r@));
        lemma_composed_unique(budget, candidates@, r@, spec_compose(budget, candidates@));
    }
    r
}

/// Every cell of `room` whose tile reads `class`, in row-major order.
pub open spec fn tile_cells(rooms: Rooms, room: RoomId, class: Tile, r: Seq<(u8, u8)>) -> bool {
    match rooms.kind_at(room as int) {
        None => r.len() == 0,
        Some(kind) => {
            &&& forall|i: int|
                0 <= i < r.len() ==> (#[trigger] r[i]).0 < kind.spec_grid().0 && r[i].1 < kind.spec_grid().1
                    && kind.spec_tile_of(r[i].0 as int, r[i].1 as int) == Some(class)
            &&& forall|x: int, y: int|
                0 <= x < kind.spec_grid().0 && 0 <= y < kind.spec_grid().1 && #[trigger] kind.spec_tile_of(x, y)
                    == Some(class) ==> exists|i: int| 0 <= i < r.len() && r[i] == (x as u8, y as u8)
            &&& forall|i: int, j: int|
                0 <= i < j < r.len() ==> ((#[trigger] r[i]).1 < (#[trigger] r[j]).1 || (r[i].1 == r[j].1 && r[i].0
                    < r[j].0))
        },
    }
}

/// Whether cell `a` reads strictly before cell `b`: row by row, left to
/// right.
pub open spec fn cell_before(a: (u8, u8), b: (u8, u8)) -> bool {
    a.1 < b.1 || (a.1 == b.1 && a.0 < b.0)
}

/// Whether the cells stand strictly in reading order.
pub open spec fn reading_order(s: Seq<(u8, u8)>) -> bool {
    forall|i: int, j: int| 0 <= i < j < s.len() ==> cell_before(#[trigger] s[i], #[trigger] s[j])
}

/// Two lists of cells in strict reading order that hold the same cells
/// are the same list.
proof fn lemma_reading_order_unique(a: Seq<(u8, u8)>, b: Seq<(u8, u8)>)
    requires
        reading_order(a),
        reading_order(b),
        forall|c: (u8, u8)| a.contains(c) <==> b.contains(c),
    ensures
        a == b,
    decreases a.len(),
{
    if a.len() == 0 {
        if b.len() > 0 {
            assert(b.contains(b[0]));
        }
        assert(a =~= b);
    } else if b.len() == 0 {
        assert(a.contains(a[0]));
    } else {
        assert(a.contains(a[0]));
        assert(b.contains(b[0]));
        let j = choose|j: int| 0 <= j < b.len() && b[j] == a[0];
        let i = choose|i: int| 0 <= i < a.len() && a[i] == b[0];
        if j > 0 {
            assert(cell_before(b[0], b[j]));
            if i > 0 {
                assert(cell_before(a[0], a[i]));
            }
        }
        assert(a[0] == b[0]);
        let ta = a.drop_first();
        let tb = b.drop_first();
        assert forall|c: (u8, u8)| ta.contains(c) <==> tb.contains(c) by {
            if ta.contains(c) {
                let k = choose|k: int| 0 <= k < ta.len() && ta[k] == c;
                assert(a[k + 1] == c);
                assert(cell_before(a[0], a[k + 1]));
                assert(b.contains(c));
                let m = choose|m: int| 0 <= m < b.len() && b[m] == c;
                assert(m != 0);
                assert(tb[m - 1] == c);
            }
            if tb.contains(c) {
                let k = choose|k: int| 0 <= k < tb.len() && tb[k] == c;
                assert(b[k + 1] == c);
                assert(cell_before(b[0], b[k + 1]));
                assert(a.contains(c));
                let m = choose|m: int| 0 <= m < a.len() && a[m] == c;
                assert(m != 0);
                assert(ta[m - 1] == c);
            }
        }
        assert forall|x: int, y: int| 0 <= x < y < ta.len() implies cell_before(#[trigger] ta[x], #[trigger] ta[y]) by {
            assert(ta[x] == a[x + 1] && ta[y] == a[y + 1]);
        }
        assert forall|x: int, y: int| 0 <= x < y < tb.len() implies cell_before(#[trigger] tb[x], #[trigger] tb[y]) by {
            assert(tb[x] == b[x + 1] && tb[y] == b[y + 1]);
        }
        lemma_reading_order_unique(ta, tb);
        assert(a =~= seq![a[0]] + ta);
        assert(b =~= seq![b[0]] + tb);
    }
}

/// The cells of `room` whose tile reads `class`, as a value: there is
/// exactly one such list.
pub open spec fn spec_tiles_of(rooms: Rooms, room: RoomId, class: Tile) -> Seq<(u8, u8)> {
    choose|r: Seq<(u8, u8)>| tile_cells(rooms, room, class, r)
}

/// The cells of a class are one list.
pub proof fn lemma_tile_cells_unique(rooms: Rooms, room: RoomId, class: Tile, a: Seq<(u8, u8)>, b: Seq<(u8, u8)>)
    requires
        tile_cells(rooms, room, class, a),
        tile_cells(rooms, room, class, b),
    ensures
        a == b,
{
    match rooms.kind_at(room as int) {
        None => {
            assert(a =~= b);
        },
        Some(kind) => {
            assert forall|c: (u8, u8)| a.contains(c) <==> b.contains(c) by {
                if a.contains(c) {
                    let k = choose|k: int| 0 <= k < a.len() && a[k] == c;
                    assert(kind.spec_tile_of(a[k].0 as int, a[k].1 as int) == Some(class));
                    let m = choose|m: int| 0 <= m < b.len() && b[m] == (c.0 as int as u8, c.1 as int as u8);
                    assert(b[m] == c);
                }
                if b.contains(c) {
                    let k = choose|k: int| 0 <= k < b.len() && b[k] == c;
                    assert(kind.spec_tile_of(b[k].0 as int, b[k].1 as int) == Some(class));
                    let m = choose|m: int| 0 <= m < a.len() && a[m] == (c.0 as int as u8, c.1 as int as u8);
                    assert(a[m] == c);
                }
            }
            assert forall|i: int, j: int| 0 <= i < j < a.len() implies cell_before(#[trigger] a[i], #[trigger] a[j]) by {}
            assert forall|i: int, j: int| 0 <= i < j < b.len() implies cell_before(#[trigger] b[i], #[trigger] b[j]) by {}
            lemma_reading_order_unique(a, b);
        },
    }
}

/// Every cell of `room` whose tile reads `class`, in row-major order —
/// the order a room fills its own tiles, and the order the stoker reads
/// the hopper in.
pub fn tiles_of(rooms: &Rooms, room: RoomId, class: Tile) -> (r: Vec<(u8, u8)>)
    ensures
        tile_cells(*rooms, room, class, r@),
        r@ == spec_tiles_of(*rooms, room, class),
{
    let r = scan_tiles(rooms, room, class);
    proof {
        lemma_tile_cells_unique(*rooms, room, class, r@, spec_tiles_of(*rooms, room, class));
    }
    r
}

/// The row-major scan behind [`tiles_of`].
fn scan_tiles(rooms: &Rooms, room: RoomId, class: Tile) -> (r: Vec<(u8, u8)>)
    ensures
        tile_cells(*rooms, room, class, r@),
{
    let kind = match rooms.kind(room) {
        Some(k) => k,
        None => return Vec::new(),
    };
    let (cols, rows) = kind.grid();
    let mut cells: Vec<(u8, u8)> = Vec::new();
    let mut y: u8 = 0;
    while y < rows
        invariant
            y <= rows,
            (cols, rows) == kind.spec_grid(),
            rooms.kind_at(room as int) == Some(kind),
            forall|i: int|
                0 <= i < cells@.len() ==> (#[trigger] cells@[i]).0 < cols && cells@[i].1 < y
                    && kind.spec_tile_of(cells@[i].0 as int, cells@[i].1 as int) == Some(class),
            forall|cx: int, cy: int|
                0 <= cx < cols && 0 <= cy < y && #[trigger] kind.spec_tile_of(cx, cy) == Some(class) ==> exists|i: int|
                    0 <= i < cells@.len() && cells@[i] == (cx as u8, cy as u8),
            forall|i: int, j: int|
                0 <= i < j < cells@.len() ==> ((#[trigger] cells@[i]).1 < (#[trigger] cells@[j]).1 || (cells@[i].1
                    == cells@[j].1 && cells@[i].0 < cells@[j].0)),
        decreases rows - y,
    {
        let mut x: u8 = 0;
        while x < cols
            invariant
                x <= cols,
                y < rows,
                (cols, rows) == kind.spec_grid(),
                rooms.kind_at(room as int) == Some(kind),
                forall|i: int|
                    0 <= i < cells@.len() ==> (#[trigger] cells@[i]).0 < cols && cells@[i].1 <= y && (cells@[i].1 == y
                        ==> cells@[i].0 < x) && kind.spec_tile_of(cells@[i].0 as int, cells@[i].1 as int) == Some(class),
                forall|cx: int, cy: int|
                    0 <= cx < cols && 0 <= cy < rows && (cy < y || (cy == y && cx < x)) && #[trigger] kind.spec_tile_of(
                        cx,
                        cy,
                    ) == Some(class) ==> exists|i: int| 0 <= i < cells@.len() && cells@[i] == (cx as u8, cy as u8),
                forall|i: int, j: int|
                    0 <= i < j < cells@.len() ==> ((#[trigger] cells@[i]).1 < (#[trigger] cells@[j]).1 || (cells@[i].1
                        == cells@[j].1 && cells@[i].0 < cells@[j].0)),
            decreases cols - x,
        {
            if kind.tile_of(x, y) == Some(class) {
                let ghost before = cells@;
                cells.push((x, y));
                proof {
                    assert forall|i: int| 0 <= i < before.len() implies cells@[i] == before[i] by {}
                    assert forall|cx: int, cy: int|
                        0 <= cx < cols && 0 <= cy < rows && (cy < y || (cy == y && cx < x + 1)) && #[trigger] kind.spec_tile_of(
                            cx,
                            cy,
                        ) == Some(class) implies exists|i: int| 0 <= i < cells@.len() && cells@[i] == (cx as u8, cy as u8) by {
                        if cy == y && cx == x {
                            assert(cells@[before.len() as int] == (cx as u8, cy as u8));
                        } else {
                            let i = choose|i: int| 0 <= i < before.len() && before[i] == (cx as u8, cy as u8);
                            assert(cells@[i] == before[i]);
                        }
                    }
                }
            }
            x = x + 1;
        }
        y = y + 1;
    }
    cells
}


/// **A visit's values stay within one of the station's table**, never
/// past [`VALUE_MAX`], and the Guild never prices its crates above zero.
pub proof fn lemma_jitter_bounds(seed: u64, station: PoiId, visit: u32, k: int)
    requires
        (station as int) < POI_COUNT,
        0 <= k < KIND_COUNT,
        VALUE[station as int][k] <= VALUE_MAX,
    ensures
        spec_visit_value(seed, station, visit, k) <= VALUE_MAX,
        guild_pinned(station, k) ==> spec_visit_value(seed, station, visit, k) == 0,
        !guild_pinned(station, k) ==> VALUE[station as int][k] - 1 <= spec_visit_value(seed, station, visit, k)
            <= VALUE[station as int][k] + 1,
{
}

/// **Every want carries one to three pips**: values of a visit run
/// `1..=6` on the wants row, and half of that, rounded up, is `1..=3`.
pub proof fn lemma_wants_pips(values: Seq<u8>, r: [(Kind, u8); 3], i: int)
    requires
        is_wants(values, r),
        forall|k: int| 0 <= k < KIND_COUNT ==> #[trigger] values[k] <= VALUE_MAX,
        0 <= i < 3,
    ensures
        1 <= r[i].1 <= 3,
{
}

/// A pool of the first `n` kinds holds at most `n`.
proof fn lemma_pool_len(station: PoiId, from_produce: bool, n: int)
    requires
        0 <= n,
    ensures
        pool_upto(station, from_produce, n).len() <= n,
    decreases n,
{
    if n > 0 {
        lemma_pool_len(station, from_produce, n - 1);
    }
}

/// Every kind of a stock pool is stockable.
proof fn lemma_pool_stockable(station: PoiId, from_produce: bool, n: int, i: int)
    requires
        0 <= i < pool_upto(station, from_produce, n).len(),
    ensures
        stockable(pool_upto(station, from_produce, n)[i]),
    decreases n,
{
    if n > 0 {
        let rest = pool_upto(station, from_produce, n - 1);
        if i < rest.len() {
            lemma_pool_stockable(station, from_produce, n - 1, i);
        }
    }
}

/// **The Hermitage puts out one good per two pieces ever gifted to it**:
/// it never offers a suspicious crate, and past the one mysterious crate
/// the parade may leave on its first tile, its shelves hold exactly
/// `min(karma / 2, 4, tiles left)` ordinary goods. So a stranger, with
/// less than two pieces gifted, is offered nothing before the parade and
/// at most that one crate after it.
pub proof fn lemma_hermitage_gifts(
    seed: u64,
    visit: u32,
    aboard: Seq<Piece>,
    karma: u32,
    paraded: bool,
    cap: usize,
)
    ensures
        ({
            let s = spec_stock_kinds(seed, HERMITAGE, visit, aboard, karma, paraded, cap);
            let room: int = if cap < 4 {
                cap as int
            } else {
                4
            };
            let gifts: int = if karma / 2 < 4 {
                (karma / 2) as int
            } else {
                4
            };
            &&& forall|i: int| 0 <= i < s.len() ==> #[trigger] s[i] != Kind::SuspiciousCrate && s[i] != Kind::VeryMysteriousCrate
            &&& exists|lead: int|
                {
                    &&& 0 <= lead <= 1
                    &&& lead <= room
                    &&& lead == 1 ==> paraded && s[0] == Kind::MysteriousCrate
                    &&& #[trigger] (s.len() - lead) == if gifts < room - lead {
                        gifts
                    } else {
                        room - lead
                    }
                }
            &&& karma < 2 && !paraded ==> s.len() == 0
            &&& karma < 2 ==> s.len() <= 1
        }),
{
    let s = spec_stock_kinds(seed, HERMITAGE, visit, aboard, karma, paraded, cap);
    let h = spec_visit_hash(seed, HERMITAGE, visit);
    assert(!offers_crate(seed, HERMITAGE, visit, aboard));
    let room: int = if cap < STOCK_MAX {
        cap as int
    } else {
        STOCK_MAX as int
    };
    let specials: Seq<Kind> = if paraded && HERMITAGE != GUILD && spec_splitmix(h, SALT_MYSTERY) % 4 == 0 && 0
        < room {
        seq![Kind::MysteriousCrate]
    } else {
        Seq::empty()
    };
    let wanted: int = if karma / 2 < STOCK_MAX {
        (karma / 2) as int
    } else {
        STOCK_MAX as int
    };
    let left = if room > specials.len() {
        room - specials.len()
    } else {
        0
    };
    let count = if wanted < left {
        wanted
    } else {
        left
    };
    let rolled = Seq::new(count as nat, |i: int| spec_stock_kind(HERMITAGE, spec_splitmix(h, (SALT_KIND + i) as u64)));
    assert(s =~= specials + rolled);
    assert forall|i: int| 0 <= i < rolled.len() implies stockable(#[trigger] rolled[i]) by {
        lemma_rolls_never_crates(HERMITAGE, spec_splitmix(h, (SALT_KIND + i) as u64));
    }
    assert forall|i: int| 0 <= i < s.len() implies #[trigger] s[i] != Kind::SuspiciousCrate && s[i]
        != Kind::VeryMysteriousCrate by {
        if i >= specials.len() {
            assert(s[i] == rolled[i - specials.len()]);
        }
    }
    let lead = specials.len() as int;
    assert(s.len() - lead == count);
}

/// **Ordinary stock rolls never yield a crate**: suspicious crates, very
/// mysterious crates and casino chips only enter the world otherwise.
pub proof fn lemma_rolls_never_crates(station: PoiId, roll: u64)
    requires
        (station as int) < POI_COUNT,
    ensures
        stockable(spec_stock_kind(station, roll)),
{
    lemma_pools_filled(station, roll);
    lemma_pool_len(station, rolls_produce(station, roll), KIND_COUNT as int);
    let pool = pool_upto(station, rolls_produce(station, roll), KIND_COUNT as int);
    let i = ((roll / 10) % (pool.len() as u64)) as int;
    lemma_pool_stockable(station, rolls_produce(station, roll), KIND_COUNT as int, i);
}

/// **The Guild never offers a crate, and neither does any station while
/// one is already aboard**: crates flow outward from the frontier, one
/// at a time.
pub proof fn lemma_no_second_crate(
    seed: u64,
    station: PoiId,
    visit: u32,
    aboard: Seq<Piece>,
    karma: u32,
    paraded: bool,
    cap: usize,
)
    requires
        (station as int) < POI_COUNT,
        station == GUILD || crate_aboard(aboard),
    ensures
        !spec_stock_kinds(seed, station, visit, aboard, karma, paraded, cap).contains(Kind::SuspiciousCrate),
{
    let h = spec_visit_hash(seed, station, visit);
    let goods = spec_stock_kinds(seed, station, visit, aboard, karma, paraded, cap);
    if goods.contains(Kind::SuspiciousCrate) {
        let i = choose|i: int| 0 <= i < goods.len() && goods[i] == Kind::SuspiciousCrate;
        let room = if cap < STOCK_MAX {
            cap as int
        } else {
            STOCK_MAX as int
        };
        let first: Seq<Kind> = Seq::empty();
        let specials: Seq<Kind> = if paraded && station != GUILD && spec_splitmix(h, SALT_MYSTERY) % 4 == 0
            && first.len() < room {
            first.push(Kind::MysteriousCrate)
        } else {
            first
        };
        if i < specials.len() {
            assert(specials[i] == Kind::MysteriousCrate);
        } else {
            let j = i - specials.len();
            lemma_rolls_never_crates(station, spec_splitmix(h, (SALT_KIND + j) as u64));
        }
    }
}

/// **The pile a room composes never costs more than the proposal
/// covers.**
pub proof fn lemma_greedy_within_budget(s: Seq<(u32, u32, bool)>, budget: int, n: int)
    requires
        0 <= budget,
    ensures
        0 <= greedy(s, budget, n).0 <= budget,
    decreases n,
{
    if n > 0 {
        lemma_greedy_within_budget(s, budget, n - 1);
    }
}

/// A pile never holds more pieces than were on offer.
pub proof fn lemma_composed_len(budget: u32, candidates: Seq<(u32, u32, bool)>, r: Seq<u32>)
    requires
        composed(budget, candidates, r),
    ensures
        r.len() <= candidates.len(),
{
    let ord = choose|ord: Seq<(u32, u32, bool)>|
        #[trigger] ranked(ord) && ord.to_multiset() == candidates.to_multiset() && r.to_multiset() == greedy(
            ord,
            budget as int,
            ord.len() as int,
        ).1.to_multiset();
    lemma_greedy_len(ord, budget as int, ord.len() as int);
    vstd::seq_lib::to_multiset_len(r);
    vstd::seq_lib::to_multiset_len(greedy(ord, budget as int, ord.len() as int).1);
    vstd::seq_lib::to_multiset_len(ord);
    vstd::seq_lib::to_multiset_len(candidates);
}

/// The greedy pass takes at most one id per candidate it passes.
proof fn lemma_greedy_len(s: Seq<(u32, u32, bool)>, budget: int, n: int)
    ensures
        greedy(s, budget, n).1.len() <= if n < 0 {
            0
        } else {
            n
        },
    decreases n,
{
    if n > 0 {
        lemma_greedy_len(s, budget, n - 1);
    }
}

} // verus!
