//! The save document's remaining lines: its header and key-value
//! lines, the per-station lists, the ship, the omen, the parade, the room
//! edges and the marks — each written as words and read back from
//! them, with a law that what is written reads back as itself.

use vstd::prelude::*;
use crate::sim::barter::{ascending, sort_ids};
use crate::sim::event::Phase;
use crate::sim::map::{POI_COUNT, PoiId, ShipState};
use crate::sim::room::{MAX_ROOMS, PORTS, PortId, RoomId, RoomKind, spec_kind_of_token};
use crate::sim::save::{w_none, word_upto};
use crate::text::{
    lemma_line_text_one, one_line,
    all_hex, dec_bytes, dec_word, dec_words, good_words, hex_bytes, hex_value, hex_word, is_digit, lemma_dec_bytes,
    lemma_dec_spaceless, lemma_hex_bytes, lemma_line_words, line_text, read_words, spaceless, spans_match, views,
    word_hex_u64, word_u64, word_value, words, write_line,
};

verus! {

/// The words that open the document's lines, and name its phases.
#[derive(Clone, Copy, Debug, PartialEq, Eq, Structural)]
pub enum Key {
    /// The run seed.
    Seed,
    /// The clock.
    Tick,
    /// The generator state.
    Rng,
    /// Fast time.
    Warp,
    /// Stopped time.
    Paused,
    /// The hangar tally.
    Deliveries,
    /// The favour count.
    Karma,
    /// The discovery ledger.
    Familiar,
    /// The visit counts.
    Visits,
    /// The ship line.
    Ship,
    /// A ship at a station.
    Docked,
    /// A ship underway.
    Travel,
    /// The leg count.
    Legs,
    /// The omen line, and its running phase.
    Omen,
    /// A quiet phase.
    Idle,
    /// The phase after a jump.
    Wake,
    /// The parade line.
    Parade,
    /// The room count.
    Rooms,
    /// A room edge.
    Room,
    /// The interest marks.
    Marks,
    /// The next piece id.
    NextPiece,
}

/// The bytes of key `k`.
pub open spec fn key_bytes(k: Key) -> Seq<u8> {
    match k {
        Key::Seed => seq![115u8, 101u8, 101u8, 100u8],
        Key::Tick => seq![116u8, 105u8, 99u8, 107u8],
        Key::Rng => seq![114u8, 110u8, 103u8],
        Key::Warp => seq![119u8, 97u8, 114u8, 112u8],
        Key::Paused => seq![112u8, 97u8, 117u8, 115u8, 101u8, 100u8],
        Key::Deliveries => seq![100u8, 101u8, 108u8, 105u8, 118u8, 101u8, 114u8, 105u8, 101u8, 115u8],
        Key::Karma => seq![107u8, 97u8, 114u8, 109u8, 97u8],
        Key::Familiar => seq![102u8, 97u8, 109u8, 105u8, 108u8, 105u8, 97u8, 114u8],
        Key::Visits => seq![118u8, 105u8, 115u8, 105u8, 116u8, 115u8],
        Key::Ship => seq![115u8, 104u8, 105u8, 112u8],
        Key::Docked => seq![100u8, 111u8, 99u8, 107u8, 101u8, 100u8],
        Key::Travel => seq![116u8, 114u8, 97u8, 118u8, 101u8, 108u8],
        Key::Legs => seq![108u8, 101u8, 103u8, 115u8],
        Key::Omen => seq![111u8, 109u8, 101u8, 110u8],
        Key::Idle => seq![105u8, 100u8, 108u8, 101u8],
        Key::Wake => seq![119u8, 97u8, 107u8, 101u8],
        Key::Parade => seq![112u8, 97u8, 114u8, 97u8, 100u8, 101u8],
        Key::Rooms => seq![114u8, 111u8, 111u8, 109u8, 115u8],
        Key::Room => seq![114u8, 111u8, 111u8, 109u8],
        Key::Marks => seq![109u8, 97u8, 114u8, 107u8, 115u8],
        Key::NextPiece => seq![110u8, 101u8, 120u8, 116u8, 95u8, 112u8, 105u8, 101u8, 99u8, 101u8],
    }
}

/// The bytes of key `k`, to write.
pub fn key_word(k: Key) -> (r: Vec<u8>)
    ensures
        r@ == key_bytes(k),
{
    match k {
        Key::Seed => {
            let r = vec![115u8, 101u8, 101u8, 100u8];
            assert(r@ =~= key_bytes(k));
            r
        },
        Key::Tick => {
            let r = vec![116u8, 105u8, 99u8, 107u8];
            assert(r@ =~= key_bytes(k));
            r
        },
        Key::Rng => {
            let r = vec![114u8, 110u8, 103u8];
            assert(r@ =~= key_bytes(k));
            r
        },
        Key::Warp => {
            let r = vec![119u8, 97u8, 114u8, 112u8];
            assert(r@ =~= key_bytes(k));
            r
        },
        Key::Paused => {
            let r = vec![112u8, 97u8, 117u8, 115u8, 101u8, 100u8];
            assert(r@ =~= key_bytes(k));
            r
        },
        Key::Deliveries => {
            let r = vec![100u8, 101u8, 108u8, 105u8, 118u8, 101u8, 114u8, 105u8, 101u8, 115u8];
            assert(r@ =~= key_bytes(k));
            r
        },
        Key::Karma => {
            let r = vec![107u8, 97u8, 114u8, 109u8, 97u8];
            assert(r@ =~= key_bytes(k));
            r
        },
        Key::Familiar => {
            let r = vec![102u8, 97u8, 109u8, 105u8, 108u8, 105u8, 97u8, 114u8];
            assert(r@ =~= key_bytes(k));
            r
        },
        Key::Visits => {
            let r = vec![118u8, 105u8, 115u8, 105u8, 116u8, 115u8];
            assert(r@ =~= key_bytes(k));
            r
        },
        Key::Ship => {
            let r = vec![115u8, 104u8, 105u8, 112u8];
            assert(r@ =~= key_bytes(k));
            r
        },
        Key::Docked => {
            let r = vec![100u8, 111u8, 99u8, 107u8, 101u8, 100u8];
            assert(r@ =~= key_bytes(k));
            r
        },
        Key::Travel => {
            let r = vec![116u8, 114u8, 97u8, 118u8, 101u8, 108u8];
            assert(r@ =~= key_bytes(k));
            r
        },
        Key::Legs => {
            let r = vec![108u8, 101u8, 103u8, 115u8];
            assert(r@ =~= key_bytes(k));
            r
        },
        Key::Omen => {
            let r = vec![111u8, 109u8, 101u8, 110u8];
            assert(r@ =~= key_bytes(k));
            r
        },
        Key::Idle => {
            let r = vec![105u8, 100u8, 108u8, 101u8];
            assert(r@ =~= key_bytes(k));
            r
        },
        Key::Wake => {
            let r = vec![119u8, 97u8, 107u8, 101u8];
            assert(r@ =~= key_bytes(k));
            r
        },
        Key::Parade => {
            let r = vec![112u8, 97u8, 114u8, 97u8, 100u8, 101u8];
            assert(r@ =~= key_bytes(k));
            r
        },
        Key::Rooms => {
            let r = vec![114u8, 111u8, 111u8, 109u8, 115u8];
            assert(r@ =~= key_bytes(k));
            r
        },
        Key::Room => {
            let r = vec![114u8, 111u8, 111u8, 109u8];
            assert(r@ =~= key_bytes(k));
            r
        },
        Key::Marks => {
            let r = vec![109u8, 97u8, 114u8, 107u8, 115u8];
            assert(r@ =~= key_bytes(k));
            r
        },
        Key::NextPiece => {
            let r = vec![110u8, 101u8, 120u8, 116u8, 95u8, 112u8, 105u8, 101u8, 99u8, 101u8];
            assert(r@ =~= key_bytes(k));
            r
        },
    }
}

/// A key is one word that starts with a lower-case letter, so it is
/// never `-` and never a number.
pub proof fn lemma_key_bytes(k: Key)
    ensures
        key_bytes(k).len() >= 1,
        spaceless(key_bytes(k)),
        97 <= key_bytes(k)[0] <= 122,
{
    assert forall|i: int| 0 <= i < key_bytes(k).len() implies 95 <= #[trigger] key_bytes(k)[i] <= 122 by {
        match k {
            _ => {},
        }
    }
}

/// A number as the `u64` it is, when there is one.
pub open spec fn as_u64(o: Option<nat>) -> Option<u64> {
    match o {
        Some(v) => Some(v as u64),
        None => None,
    }
}

/// The hexadecimal number word `t` names, if it names one no larger
/// than `max`.
pub open spec fn hex_upto(t: Seq<u8>, max: nat) -> Option<nat> {
    match hex_value(t) {
        Some(v) => if v <= max {
            Some(v)
        } else {
            None
        },
        None => None,
    }
}

/// What an optional-number word names: `-` for nothing, else a number
/// no larger than `max`; `None` when it is neither.
pub open spec fn opt_word(t: Seq<u8>, max: nat) -> Option<Option<nat>> {
    if t == w_none() {
        Some(None)
    } else {
        match word_upto(t, max) {
            Some(v) => Some(Some(v)),
            None => None,
        }
    }
}

/// The word an optional number is written as.
pub open spec fn opt_bytes(v: Option<nat>) -> Seq<u8> {
    match v {
        None => w_none(),
        Some(n) => dec_bytes(n),
    }
}

/// A decimal word is one word, and never `-`.
pub proof fn lemma_dec_word(n: nat)
    ensures
        dec_bytes(n).len() >= 1,
        spaceless(dec_bytes(n)),
        dec_bytes(n) != w_none(),
        is_digit(dec_bytes(n)[0]),
        word_value(dec_bytes(n)) == Some(n),
{
    lemma_dec_bytes(n);
    lemma_dec_spaceless(n);
    assert(is_digit(dec_bytes(n)[0]));
    assert(dec_bytes(n) != w_none()) by {
        assert(w_none()[0] == 45u8);
    }
}

/// An optional number reads back as itself.
pub proof fn lemma_opt_bytes(v: Option<nat>, max: nat)
    requires
        v matches Some(n) ==> n <= max,
    ensures
        opt_bytes(v).len() >= 1,
        spaceless(opt_bytes(v)),
        opt_word(opt_bytes(v), max) == Some(v),
{
    match v {
        None => {
            assert(spaceless(w_none()));
        },
        Some(n) => {
            lemma_dec_word(n);
        },
    }
}

/// The optional number word `s[a..b]` names, no larger than `max`.
pub fn read_opt(s: &[u8], a: usize, b: usize, max: u64) -> (r: Option<Option<u64>>)
    requires
        a <= b <= s@.len(),
    ensures
        r == match opt_word(s@.subrange(a as int, b as int), max as nat) {
            Some(Some(v)) => Some(Some(v as u64)),
            Some(None) => Some(None::<u64>),
            None => None::<Option<u64>>,
        },
{
    if b > a && b - a == 1 && s[a] == 45 {
        assert(s@.subrange(a as int, b as int) =~= w_none());
        return Some(None);
    }
    assert(s@.subrange(a as int, b as int) != w_none()) by {
        if s@.subrange(a as int, b as int) == w_none() {
            assert(s@.subrange(a as int, b as int)[0] == s@[a as int]);
        }
    }
    match word_u64(s, a, b) {
        Some(v) => if v <= max {
            Some(Some(v))
        } else {
            None
        },
        None => None,
    }
}

/// The word an optional number is written as, to write.
pub fn opt_word_of(v: Option<u64>) -> (r: Vec<u8>)
    ensures
        r@ == opt_bytes(
            match v {
                Some(n) => Some(n as nat),
                None => None,
            },
        ),
{
    match v {
        Some(n) => dec_word(n),
        None => {
            let r = vec![45u8];
            assert(r@ =~= w_none());
            r
        },
    }
}

// ---------------------------------------------------------------------
// Key-value lines
// ---------------------------------------------------------------------

/// A `key <number>` line.
pub open spec fn kv_text(k: Key, n: nat) -> Seq<u8> {
    line_text(seq![key_bytes(k), dec_bytes(n)])
}

/// The number a `key <number>` line names, no larger than `max`; words
/// after it are ignored.
pub open spec fn spec_read_kv(line: Seq<u8>, k: Key, max: nat) -> Option<nat> {
    let ws = words(line);
    if ws.len() < 2 || ws[0] != key_bytes(k) {
        None
    } else {
        word_upto(ws[1], max)
    }
}

/// **A key-value line reads back as the number it was written with.**
pub proof fn lemma_kv_line_round_trip(k: Key, n: nat, max: nat)
    requires
        n <= max,
    ensures
        spec_read_kv(kv_text(k, n), k, max) == Some(n),
{
    lemma_key_bytes(k);
    lemma_dec_word(n);
    let ws = seq![key_bytes(k), dec_bytes(n)];
    assert(good_words(ws));
    lemma_line_words(ws);
}

/// Append a `key <number>` line.
pub fn write_kv(out: &mut Vec<u8>, k: Key, n: u64)
    ensures
        final(out)@ == old(out)@ + kv_text(k, n as nat),
{
    let ws = vec![key_word(k), dec_word(n)];
    assert(views(ws@) =~= seq![key_bytes(k), dec_bytes(n as nat)]);
    write_line(out, ws.as_slice());
}

/// The number a `key <number>` line names, no larger than `max`.
pub fn read_kv(line: &[u8], k: Key, max: u64) -> (r: Option<u64>)
    ensures
        r == as_u64(spec_read_kv(line@, k, max as nat)),
        r matches Some(v) ==> v <= max,
{
    let ghost ws = words(line@);
    let sp = match read_words(line, 0, 2) {
        Some(sp) => sp,
        None => return None,
    };
    let key = key_word(k);
    if !crate::text::word_is(line, sp[0].0, sp[0].1, key.as_slice()) {
        return None;
    }
    match word_u64(line, sp[1].0, sp[1].1) {
        Some(v) => if v <= max {
            Some(v)
        } else {
            None
        },
        None => None,
    }
}

/// A `key <hexadecimal number>` line, zero-padded to `min` digits.
pub open spec fn hex_kv_text(k: Key, n: nat, min: nat) -> Seq<u8> {
    line_text(seq![key_bytes(k), hex_bytes(n, min)])
}

/// The number a `key <hexadecimal number>` line names, no larger than
/// `max`.
pub open spec fn spec_read_hex_kv(line: Seq<u8>, k: Key, max: nat) -> Option<nat> {
    let ws = words(line);
    if ws.len() < 2 || ws[0] != key_bytes(k) {
        None
    } else {
        hex_upto(ws[1], max)
    }
}

/// **A hexadecimal key-value line reads back as its number.**
pub proof fn lemma_hex_kv_line_round_trip(k: Key, n: nat, min: nat, max: nat)
    requires
        n <= max,
    ensures
        spec_read_hex_kv(hex_kv_text(k, n, min), k, max) == Some(n),
{
    lemma_key_bytes(k);
    lemma_hex_bytes(n, min);
    let ws = seq![key_bytes(k), hex_bytes(n, min)];
    assert(good_words(ws));
    lemma_line_words(ws);
}

/// Append a `key <hexadecimal number>` line.
pub fn write_hex_kv(out: &mut Vec<u8>, k: Key, n: u64, min: u64)
    ensures
        final(out)@ == old(out)@ + hex_kv_text(k, n as nat, min as nat),
{
    let ws = vec![key_word(k), hex_word(n, min)];
    assert(views(ws@) =~= seq![key_bytes(k), hex_bytes(n as nat, min as nat)]);
    write_line(out, ws.as_slice());
}

/// The number a `key <hexadecimal number>` line names, no larger than
/// `max`.
pub fn read_hex_kv(line: &[u8], k: Key, max: u64) -> (r: Option<u64>)
    ensures
        r == as_u64(spec_read_hex_kv(line@, k, max as nat)),
{
    let sp = match read_words(line, 0, 2) {
        Some(sp) => sp,
        None => return None,
    };
    let key = key_word(k);
    if !crate::text::word_is(line, sp[0].0, sp[0].1, key.as_slice()) {
        return None;
    }
    match word_hex_u64(line, sp[1].0, sp[1].1) {
        Some(v) => if v <= max {
            Some(v)
        } else {
            None
        },
        None => None,
    }
}

// ---------------------------------------------------------------------
// Per-station lists
// ---------------------------------------------------------------------

/// The value of a list word: hexadecimal or decimal, no larger than
/// `max`.
pub open spec fn list_value(t: Seq<u8>, max: nat, hex: bool) -> Option<nat> {
    if hex {
        hex_upto(t, max)
    } else {
        word_upto(t, max)
    }
}

/// The words a list of numbers is written as.
pub open spec fn list_words(ns: Seq<nat>, hex: bool, min: nat) -> Seq<Seq<u8>> {
    if hex {
        ns.map_values(|n: nat| hex_bytes(n, min))
    } else {
        dec_words(ns)
    }
}

/// A `key` line of numbers.
pub open spec fn list_text(k: Key, ns: Seq<nat>, hex: bool, min: nat) -> Seq<u8> {
    line_text(seq![key_bytes(k)] + list_words(ns, hex, min))
}

/// The `count` numbers a `key` line names, each no larger than `max`;
/// words after them are ignored.
pub open spec fn spec_read_list(line: Seq<u8>, k: Key, count: nat, max: nat, hex: bool) -> Option<Seq<nat>> {
    let ws = words(line);
    if ws.len() < 1 + count || ws[0] != key_bytes(k) {
        None
    } else if forall|j: int| 0 <= j < count ==> #[trigger] list_value(ws[1 + j], max, hex) is Some {
        Some(Seq::new(count, |j: int| list_value(ws[1 + j], max, hex)->0))
    } else {
        None
    }
}

/// **A list line reads back as the numbers it was written with.**
pub proof fn lemma_list_line_round_trip(k: Key, ns: Seq<nat>, hex: bool, min: nat, max: nat)
    requires
        forall|j: int| 0 <= j < ns.len() ==> #[trigger] ns[j] <= max,
    ensures
        spec_read_list(list_text(k, ns, hex, min), k, ns.len(), max, hex) == Some(ns),
{
    lemma_key_bytes(k);
    let lw = list_words(ns, hex, min);
    let ws = seq![key_bytes(k)] + lw;
    assert forall|j: int| 0 <= j < ns.len() implies #[trigger] lw[j].len() >= 1 && spaceless(lw[j]) && list_value(
        lw[j],
        max,
        hex,
    ) == Some(ns[j]) by {
        if hex {
            lemma_hex_bytes(ns[j], min);
        } else {
            lemma_dec_word(ns[j]);
        }
    }
    assert(good_words(ws)) by {
        assert forall|j: int| 0 <= j < ws.len() implies #[trigger] ws[j].len() >= 1 && spaceless(ws[j]) by {
            if j > 0 {
                assert(ws[j] == lw[j - 1]);
            }
        }
    }
    lemma_line_words(ws);
    let words_read = words(list_text(k, ns, hex, min));
    assert(words_read == ws);
    assert forall|j: int| 0 <= j < ns.len() implies #[trigger] list_value(words_read[1 + j], max, hex) is Some by {
        assert(words_read[1 + j] == lw[j]);
    }
    assert(Seq::new(ns.len(), |j: int| list_value(words_read[1 + j], max, hex)->0) =~= ns) by {
        assert forall|j: int| 0 <= j < ns.len() implies list_value(words_read[1 + j], max, hex)->0 == ns[j] by {
            assert(words_read[1 + j] == lw[j]);
        }
    }
}

/// The numbers of a list, as they are written.
pub open spec fn nats(ns: Seq<u64>) -> Seq<nat> {
    ns.map_values(|n: u64| n as nat)
}

/// Append a `key` line of numbers, hexadecimal ones zero-padded to
/// `min` digits.
pub fn write_list(out: &mut Vec<u8>, k: Key, ns: &[u64], hex: bool, min: u64)
    ensures
        final(out)@ == old(out)@ + list_text(k, nats(ns@), hex, min as nat),
{
    let mut ws: Vec<Vec<u8>> = Vec::new();
    ws.push(key_word(k));
    let mut j: usize = 0;
    while j < ns.len()
        invariant
            j <= ns@.len(),
            ws@.len() == j + 1,
            ws@[0]@ == key_bytes(k),
            forall|q: int| 0 <= q < j ==> #[trigger] ws@[q + 1]@ == list_words(nats(ns@), hex, min as nat)[q],
        decreases ns@.len() - j,
    {
        let w = if hex {
            hex_word(ns[j], min)
        } else {
            dec_word(ns[j])
        };
        ws.push(w);
        j = j + 1;
    }
    assert(views(ws@) =~= seq![key_bytes(k)] + list_words(nats(ns@), hex, min as nat)) by {
        assert forall|q: int| 0 <= q < ws@.len() implies #[trigger] views(ws@)[q] == (seq![key_bytes(k)] + list_words(
            nats(ns@),
            hex,
            min as nat,
        ))[q] by {
            if q > 0 {
                assert(ws@[(q - 1) + 1]@ == list_words(nats(ns@), hex, min as nat)[q - 1]);
            }
        }
    }
    write_line(out, ws.as_slice());
}

/// The `count` numbers a `key` line names, each no larger than `max`.
pub fn read_list(line: &[u8], k: Key, count: usize, max: u64, hex: bool) -> (r: Option<Vec<u64>>)
    requires
        count < usize::MAX,
    ensures
        match spec_read_list(line@, k, count as nat, max as nat, hex) {
            Some(ns) => r matches Some(v) && nats(v@) == ns,
            None => r is None,
        },
        r matches Some(v) ==> v@.len() == count && forall|j: int| 0 <= j < count ==> #[trigger] v@[j] <= max,
{
    let ghost ws = words(line@);
    let sp = match read_words(line, 0, count + 1) {
        Some(sp) => sp,
        None => return None,
    };
    let key = key_word(k);
    if !crate::text::word_is(line, sp[0].0, sp[0].1, key.as_slice()) {
        return None;
    }
    let mut v: Vec<u64> = Vec::new();
    let mut j: usize = 0;
    while j < count
        invariant
            j <= count,
            sp@.len() == count + 1,
            ws == words(line@),
            ws.len() >= count + 1,
            spans_match(line@, ws, sp@),
            v@.len() == j,
            forall|q: int| 0 <= q < j ==> #[trigger] list_value(ws[1 + q], max as nat, hex) == Some(v@[q] as nat),
            forall|q: int| 0 <= q < j ==> #[trigger] v@[q] <= max,
        decreases count - j,
    {
        let (a, b) = sp[j + 1];
        proof {
            assert(ws[j + 1] == line@.subrange(a as int, b as int));
        }
        let got = if hex {
            word_hex_u64(line, a, b)
        } else {
            word_u64(line, a, b)
        };
        match got {
            Some(n) => if n <= max {
                v.push(n);
            } else {
                proof {
                    assert(list_value(ws[1 + j], max as nat, hex) is None);
                }
                return None;
            },
            None => {
                proof {
                    assert(list_value(ws[1 + j], max as nat, hex) is None);
                }
                return None;
            },
        }
        j = j + 1;
    }
    proof {
        assert(nats(v@) =~= Seq::new(count as nat, |q: int| list_value(ws[1 + q], max as nat, hex)->0));
    }
    Some(v)
}

// ---------------------------------------------------------------------
// The parade line
// ---------------------------------------------------------------------

/// An optional `u64` as an optional number.
pub open spec fn nat_opt(o: Option<u64>) -> Option<nat> {
    match o {
        Some(v) => Some(v as nat),
        None => None,
    }
}

/// The `parade` line: the tick the counter filled, then the harvested
/// comet apparition, each `-` when there is none.
pub open spec fn parade_text(parade_at: Option<u64>, comet_visit: Option<u64>) -> Seq<u8> {
    line_text(seq![key_bytes(Key::Parade), opt_bytes(nat_opt(parade_at)), opt_bytes(nat_opt(comet_visit))])
}

/// What a `parade` line names. The second word may be missing, and then
/// reads as none.
pub open spec fn spec_read_parade(line: Seq<u8>) -> Option<(Option<u64>, Option<u64>)> {
    let ws = words(line);
    if ws.len() < 2 || ws[0] != key_bytes(Key::Parade) {
        None
    } else {
        let second = if ws.len() >= 3 {
            opt_word(ws[2], u64::MAX as nat)
        } else {
            Some(None)
        };
        match (opt_word(ws[1], u64::MAX as nat), second) {
            (Some(a), Some(b)) => Some((as_u64(a), as_u64(b))),
            _ => None,
        }
    }
}

/// **A parade line reads back as itself.**
pub proof fn lemma_parade_line_round_trip(parade_at: Option<u64>, comet_visit: Option<u64>)
    ensures
        spec_read_parade(parade_text(parade_at, comet_visit)) == Some((parade_at, comet_visit)),
{
    lemma_key_bytes(Key::Parade);
    lemma_opt_bytes(nat_opt(parade_at), u64::MAX as nat);
    lemma_opt_bytes(nat_opt(comet_visit), u64::MAX as nat);
    let ws = seq![key_bytes(Key::Parade), opt_bytes(nat_opt(parade_at)), opt_bytes(nat_opt(comet_visit))];
    assert(good_words(ws));
    lemma_line_words(ws);
}

/// Append the `parade` line.
pub fn write_parade(out: &mut Vec<u8>, parade_at: Option<u64>, comet_visit: Option<u64>)
    ensures
        final(out)@ == old(out)@ + parade_text(parade_at, comet_visit),
{
    let ws = vec![key_word(Key::Parade), opt_word_of(parade_at), opt_word_of(comet_visit)];
    assert(views(ws@) =~= seq![
        key_bytes(Key::Parade),
        opt_bytes(nat_opt(parade_at)),
        opt_bytes(nat_opt(comet_visit)),
    ]);
    write_line(out, ws.as_slice());
}

/// What a `parade` line names.
pub fn read_parade(line: &[u8]) -> (r: Option<(Option<u64>, Option<u64>)>)
    ensures
        r == spec_read_parade(line@),
{
    let ghost ws = words(line@);
    let sp = match read_words(line, 0, 2) {
        Some(sp) => sp,
        None => return None,
    };
    let key = key_word(Key::Parade);
    if !crate::text::word_is(line, sp[0].0, sp[0].1, key.as_slice()) {
        return None;
    }
    let first = match read_opt(line, sp[1].0, sp[1].1, u64::MAX) {
        Some(a) => a,
        None => return None,
    };
    let second = match read_words(line, 0, 3) {
        Some(sp3) => {
            proof {
                assert(ws[2] == line@.subrange(sp3@[2].0 as int, sp3@[2].1 as int));
            }
            match read_opt(line, sp3[2].0, sp3[2].1, u64::MAX) {
                Some(b) => b,
                None => return None,
            }
        },
        None => None,
    };
    Some((first, second))
}

// ---------------------------------------------------------------------
// The ship line
// ---------------------------------------------------------------------

/// The largest station id.
pub open spec fn poi_max() -> nat {
    (POI_COUNT - 1) as nat
}

/// An optional station as an optional number.
pub open spec fn poi_opt(o: Option<PoiId>) -> Option<nat> {
    match o {
        Some(v) => Some(v as nat),
        None => None,
    }
}

/// The words of the `ship` line: where the ship is, the selected
/// destination (`-` for none), and the banked burner's stoke.
pub open spec fn ship_words(state: ShipState, selected: Option<PoiId>, stoke: u64) -> Seq<Seq<u8>> {
    let tail = seq![opt_bytes(poi_opt(selected)), dec_bytes(stoke as nat)];
    match state {
        ShipState::Docked(at) => seq![key_bytes(Key::Ship), key_bytes(Key::Docked), dec_bytes(at as nat)] + tail,
        ShipState::Traveling { from, to, progress, leg_ticks } => seq![
            key_bytes(Key::Ship),
            key_bytes(Key::Travel),
            dec_bytes(from as nat),
            dec_bytes(to as nat),
            dec_bytes(progress as nat),
            dec_bytes(leg_ticks as nat),
        ] + tail,
    }
}

/// The `ship` line.
pub open spec fn ship_text(state: ShipState, selected: Option<PoiId>, stoke: u64) -> Seq<u8> {
    line_text(ship_words(state, selected, stoke))
}

/// Whether a ship state names stations that exist and a leg that has
/// begun and not overrun.
pub open spec fn ship_ok(state: ShipState, selected: Option<PoiId>) -> bool {
    &&& selected matches Some(s) ==> s < POI_COUNT
    &&& match state {
        ShipState::Docked(at) => at < POI_COUNT,
        ShipState::Traveling { from, to, progress, leg_ticks } => from < POI_COUNT && to < POI_COUNT && leg_ticks
            > 0 && progress <= leg_ticks,
    }
}

/// The stoke word at `j`, which may be missing (an unlit fire).
pub open spec fn stoke_at(ws: Seq<Seq<u8>>, j: int) -> Option<nat> {
    if ws.len() > j {
        word_upto(ws[j], u64::MAX as nat)
    } else {
        Some(0)
    }
}

/// What a `ship` line names: where the ship is, the selected
/// destination, and the stoke.
pub open spec fn spec_read_ship(line: Seq<u8>) -> Option<(ShipState, Option<PoiId>, u64)> {
    let ws = words(line);
    if ws.len() < 2 || ws[0] != key_bytes(Key::Ship) {
        None
    } else if ws[1] == key_bytes(Key::Docked) {
        if ws.len() < 4 {
            None
        } else {
            match (word_upto(ws[2], poi_max()), opt_word(ws[3], poi_max()), stoke_at(ws, 4)) {
                (Some(at), Some(sel), Some(st)) => Some(
                    (
                        ShipState::Docked(at as u8),
                        match sel {
                            Some(v) => Some(v as u8),
                            None => None,
                        },
                        st as u64,
                    ),
                ),
                _ => None,
            }
        }
    } else if ws[1] == key_bytes(Key::Travel) {
        if ws.len() < 7 {
            None
        } else {
            match (
                word_upto(ws[2], poi_max()),
                word_upto(ws[3], poi_max()),
                word_upto(ws[4], u64::MAX as nat),
                word_upto(ws[5], u64::MAX as nat),
                opt_word(ws[6], poi_max()),
                stoke_at(ws, 7),
            ) {
                (Some(f), Some(t), Some(p), Some(l), Some(sel), Some(st)) => if l == 0 || p > l {
                    None
                } else {
                    Some(
                        (
                            ShipState::Traveling { from: f as u8, to: t as u8, progress: p as u64, leg_ticks: l as u64 },
                            match sel {
                                Some(v) => Some(v as u8),
                                None => None,
                            },
                            st as u64,
                        ),
                    )
                },
                _ => None,
            }
        }
    } else {
        None
    }
}

/// **A ship line reads back as itself**, for a ship between stations
/// that exist on a leg that has begun and not overrun.
pub proof fn lemma_ship_line_round_trip(state: ShipState, selected: Option<PoiId>, stoke: u64)
    requires
        ship_ok(state, selected),
    ensures
        spec_read_ship(ship_text(state, selected, stoke)) == Some((state, selected, stoke)),
{
    lemma_key_bytes(Key::Ship);
    lemma_key_bytes(Key::Docked);
    lemma_key_bytes(Key::Travel);
    lemma_opt_bytes(poi_opt(selected), poi_max());
    lemma_dec_word(stoke as nat);
    let ws = ship_words(state, selected, stoke);
    assert(key_bytes(Key::Docked) != key_bytes(Key::Travel)) by {
        assert(key_bytes(Key::Docked)[0] != key_bytes(Key::Travel)[0]);
    }
    match state {
        ShipState::Docked(at) => {
            lemma_dec_word(at as nat);
            assert(good_words(ws));
        },
        ShipState::Traveling { from, to, progress, leg_ticks } => {
            lemma_dec_word(from as nat);
            lemma_dec_word(to as nat);
            lemma_dec_word(progress as nat);
            lemma_dec_word(leg_ticks as nat);
            assert(good_words(ws));
        },
    }
    lemma_line_words(ws);
}

/// Append the `ship` line.
pub fn write_ship(out: &mut Vec<u8>, state: ShipState, selected: Option<PoiId>, stoke: u64)
    ensures
        final(out)@ == old(out)@ + ship_text(state, selected, stoke),
{
    let sel = match selected {
        Some(v) => Some(v as u64),
        None => None,
    };
    let tail0 = opt_word_of(sel);
    assert(tail0@ == opt_bytes(poi_opt(selected)));
    let ws = match state {
        ShipState::Docked(at) => vec![key_word(Key::Ship), key_word(Key::Docked), dec_word(at as u64), tail0, dec_word(stoke)],
        ShipState::Traveling { from, to, progress, leg_ticks } => vec![
            key_word(Key::Ship),
            key_word(Key::Travel),
            dec_word(from as u64),
            dec_word(to as u64),
            dec_word(progress),
            dec_word(leg_ticks),
            tail0,
            dec_word(stoke),
        ],
    };
    assert(views(ws@) =~= ship_words(state, selected, stoke));
    write_line(out, ws.as_slice());
}

/// The number word `line[sp]`, no larger than `max`.
fn num_in(line: &[u8], span: (usize, usize), max: u64) -> (r: Option<u64>)
    requires
        span.0 <= span.1 <= line@.len(),
    ensures
        r == as_u64(word_upto(line@.subrange(span.0 as int, span.1 as int), max as nat)),
{
    match word_u64(line, span.0, span.1) {
        Some(v) => if v <= max {
            Some(v)
        } else {
            None
        },
        None => None,
    }
}

/// What a `ship` line names.
pub fn read_ship(line: &[u8]) -> (r: Option<(ShipState, Option<PoiId>, u64)>)
    ensures
        r == spec_read_ship(line@),
{
    let ghost ws = words(line@);
    let sp = match read_words(line, 0, 2) {
        Some(sp) => sp,
        None => return None,
    };
    if !crate::text::word_is(line, sp[0].0, sp[0].1, key_word(Key::Ship).as_slice()) {
        return None;
    }
    let poi = (POI_COUNT - 1) as u64;
    if crate::text::word_is(line, sp[1].0, sp[1].1, key_word(Key::Docked).as_slice()) {
        let sp = match read_words(line, 0, 4) {
            Some(sp) => sp,
            None => return None,
        };
        let at = num_in(line, sp[2], poi);
        let sel = read_opt(line, sp[3].0, sp[3].1, poi);
        let stoke = match read_words(line, 0, 5) {
            Some(sp5) => {
                proof {
                    assert(ws[4] == line@.subrange(sp5@[4].0 as int, sp5@[4].1 as int));
                }
                num_in(line, sp5[4], u64::MAX)
            },
            None => Some(0),
        };
        match (at, sel, stoke) {
            (Some(at), Some(sel), Some(st)) => Some(
                (
                    ShipState::Docked(at as u8),
                    match sel {
                        Some(v) => Some(v as u8),
                        None => None,
                    },
                    st,
                ),
            ),
            _ => None,
        }
    } else if crate::text::word_is(line, sp[1].0, sp[1].1, key_word(Key::Travel).as_slice()) {
        let sp = match read_words(line, 0, 7) {
            Some(sp) => sp,
            None => return None,
        };
        let from = num_in(line, sp[2], poi);
        let to = num_in(line, sp[3], poi);
        let progress = num_in(line, sp[4], u64::MAX);
        let leg = num_in(line, sp[5], u64::MAX);
        let sel = read_opt(line, sp[6].0, sp[6].1, poi);
        let stoke = match read_words(line, 0, 8) {
            Some(sp8) => {
                proof {
                    assert(ws[7] == line@.subrange(sp8@[7].0 as int, sp8@[7].1 as int));
                }
                num_in(line, sp8[7], u64::MAX)
            },
            None => Some(0),
        };
        match (from, to, progress, leg, sel, stoke) {
            (Some(f), Some(t), Some(p), Some(l), Some(sel), Some(st)) => if l == 0 || p > l {
                None
            } else {
                Some(
                    (
                        ShipState::Traveling { from: f as u8, to: t as u8, progress: p, leg_ticks: l },
                        match sel {
                            Some(v) => Some(v as u8),
                            None => None,
                        },
                        st,
                    ),
                )
            },
            _ => None,
        }
    } else {
        None
    }
}

// ---------------------------------------------------------------------
// The omen line
// ---------------------------------------------------------------------

/// The words a phase is written as: its name, then its elapsed ticks
/// (`0` for a quiet phase).
pub open spec fn phase_words(phase: Phase) -> Seq<Seq<u8>> {
    match phase {
        Phase::Idle => seq![key_bytes(Key::Idle), dec_bytes(0)],
        Phase::Omen { elapsed } => seq![key_bytes(Key::Omen), dec_bytes(elapsed as nat)],
        Phase::Wake { elapsed } => seq![key_bytes(Key::Wake), dec_bytes(elapsed as nat)],
    }
}

/// The words of the `omen` line: the jump schedule (`-` for none), the
/// phase, and the eased light and swell as eight-digit bit patterns.
pub open spec fn omen_words(jump_at: Option<u64>, phase: Phase, light: u32, swell: u32) -> Seq<Seq<u8>> {
    seq![key_bytes(Key::Omen), opt_bytes(nat_opt(jump_at))] + phase_words(phase) + seq![
        hex_bytes(light as nat, 8),
        hex_bytes(swell as nat, 8),
    ]
}

/// The `omen` line.
pub open spec fn omen_text(jump_at: Option<u64>, phase: Phase, light: u32, swell: u32) -> Seq<u8> {
    line_text(omen_words(jump_at, phase, light, swell))
}

/// The phase a name word and an elapsed count make.
pub open spec fn phase_named(t: Seq<u8>, elapsed: u32) -> Option<Phase> {
    if t == key_bytes(Key::Idle) {
        Some(Phase::Idle)
    } else if t == key_bytes(Key::Omen) {
        Some(Phase::Omen { elapsed })
    } else if t == key_bytes(Key::Wake) {
        Some(Phase::Wake { elapsed })
    } else {
        None
    }
}

/// What an `omen` line names: the jump schedule, the phase, and the two
/// bit patterns.
pub open spec fn spec_read_omen(line: Seq<u8>) -> Option<(Option<u64>, Phase, u32, u32)> {
    let ws = words(line);
    if ws.len() < 6 || ws[0] != key_bytes(Key::Omen) {
        None
    } else {
        match (
            opt_word(ws[1], u64::MAX as nat),
            word_upto(ws[3], u32::MAX as nat),
            hex_upto(ws[4], u32::MAX as nat),
            hex_upto(ws[5], u32::MAX as nat),
        ) {
            (Some(j), Some(e), Some(l), Some(w)) => match phase_named(ws[2], e as u32) {
                Some(ph) => Some((as_u64(j), ph, l as u32, w as u32)),
                None => None,
            },
            _ => None,
        }
    }
}

/// The three phase names differ.
proof fn lemma_phase_names()
    ensures
        key_bytes(Key::Idle) != key_bytes(Key::Omen),
        key_bytes(Key::Idle) != key_bytes(Key::Wake),
        key_bytes(Key::Omen) != key_bytes(Key::Wake),
{
    assert(key_bytes(Key::Idle)[0] != key_bytes(Key::Omen)[0]);
    assert(key_bytes(Key::Idle)[0] != key_bytes(Key::Wake)[0]);
    assert(key_bytes(Key::Omen)[0] != key_bytes(Key::Wake)[0]);
}

/// **An omen line reads back as itself.**
pub proof fn lemma_omen_line_round_trip(jump_at: Option<u64>, phase: Phase, light: u32, swell: u32)
    ensures
        spec_read_omen(omen_text(jump_at, phase, light, swell)) == Some((jump_at, phase, light, swell)),
{
    lemma_key_bytes(Key::Omen);
    lemma_key_bytes(Key::Idle);
    lemma_key_bytes(Key::Wake);
    lemma_phase_names();
    lemma_opt_bytes(nat_opt(jump_at), u64::MAX as nat);
    lemma_hex_bytes(light as nat, 8);
    lemma_hex_bytes(swell as nat, 8);
    lemma_dec_word(0);
    match phase {
        Phase::Idle => {},
        Phase::Omen { elapsed } => {
            lemma_dec_word(elapsed as nat);
        },
        Phase::Wake { elapsed } => {
            lemma_dec_word(elapsed as nat);
        },
    }
    let ws = omen_words(jump_at, phase, light, swell);
    assert(good_words(ws));
    lemma_line_words(ws);
}

/// Append the `omen` line.
pub fn write_omen(out: &mut Vec<u8>, jump_at: Option<u64>, phase: Phase, light: u32, swell: u32)
    ensures
        final(out)@ == old(out)@ + omen_text(jump_at, phase, light, swell),
{
    let (name, elapsed) = match phase {
        Phase::Idle => (key_word(Key::Idle), 0u64),
        Phase::Omen { elapsed } => (key_word(Key::Omen), elapsed as u64),
        Phase::Wake { elapsed } => (key_word(Key::Wake), elapsed as u64),
    };
    let ws = vec![
        key_word(Key::Omen),
        opt_word_of(jump_at),
        name,
        dec_word(elapsed),
        hex_word(light as u64, 8),
        hex_word(swell as u64, 8),
    ];
    assert(views(ws@) =~= omen_words(jump_at, phase, light, swell));
    write_line(out, ws.as_slice());
}

/// The hexadecimal word `line[sp]`, no larger than `max`.
fn hex_in(line: &[u8], span: (usize, usize), max: u64) -> (r: Option<u64>)
    requires
        span.0 <= span.1 <= line@.len(),
    ensures
        r == as_u64(hex_upto(line@.subrange(span.0 as int, span.1 as int), max as nat)),
{
    match word_hex_u64(line, span.0, span.1) {
        Some(v) => if v <= max {
            Some(v)
        } else {
            None
        },
        None => None,
    }
}

/// What an `omen` line names.
pub fn read_omen(line: &[u8]) -> (r: Option<(Option<u64>, Phase, u32, u32)>)
    ensures
        r == spec_read_omen(line@),
{
    let sp = match read_words(line, 0, 6) {
        Some(sp) => sp,
        None => return None,
    };
    if !crate::text::word_is(line, sp[0].0, sp[0].1, key_word(Key::Omen).as_slice()) {
        return None;
    }
    let jump = read_opt(line, sp[1].0, sp[1].1, u64::MAX);
    let elapsed = num_in(line, sp[3], u32::MAX as u64);
    let light = hex_in(line, sp[4], u32::MAX as u64);
    let swell = hex_in(line, sp[5], u32::MAX as u64);
    match (jump, elapsed, light, swell) {
        (Some(j), Some(e), Some(l), Some(w)) => {
            let name = sp[2];
            let phase = if crate::text::word_is(line, name.0, name.1, key_word(Key::Idle).as_slice()) {
                Phase::Idle
            } else if crate::text::word_is(line, name.0, name.1, key_word(Key::Omen).as_slice()) {
                Phase::Omen { elapsed: e as u32 }
            } else if crate::text::word_is(line, name.0, name.1, key_word(Key::Wake).as_slice()) {
                Phase::Wake { elapsed: e as u32 }
            } else {
                return None;
            };
            Some((j, phase, l as u32, w as u32))
        },
        _ => None,
    }
}

// ---------------------------------------------------------------------
// Room edges
// ---------------------------------------------------------------------

/// One edge of the room graph as the save keeps it: the room's id and
/// kind, and the mate it hangs from (`None` for the root).
#[derive(Clone, Copy, Debug, PartialEq, Eq)]
pub struct RoomEdge {
    pub id: RoomId,
    pub kind: RoomKind,
    /// The anchor room, the anchor's port, and this room's port.
    pub anchor: Option<(RoomId, PortId, PortId)>,
}

/// The words of a `room` line.
pub open spec fn room_words(e: RoomEdge) -> Seq<Seq<u8>> {
    seq![key_bytes(Key::Room), dec_bytes(e.id as nat), dec_bytes(e.kind.spec_token() as nat)] + match e.anchor {
        None => seq![w_none(), w_none(), w_none()],
        Some((a, ap, p)) => seq![dec_bytes(a as nat), dec_bytes(ap as nat), dec_bytes(p as nat)],
    }
}

/// The `room` line.
pub open spec fn room_text(e: RoomEdge) -> Seq<u8> {
    line_text(room_words(e))
}

/// What a `room` line names: a slot that exists, a known kind, and
/// either no mate at all or a whole one through ports that exist.
pub open spec fn spec_read_room(line: Seq<u8>) -> Option<RoomEdge> {
    let ws = words(line);
    if ws.len() < 6 || ws[0] != key_bytes(Key::Room) {
        None
    } else {
        match (
            word_upto(ws[1], (MAX_ROOMS - 1) as nat),
            word_upto(ws[2], 255),
            opt_word(ws[3], 255),
            opt_word(ws[4], 255),
            opt_word(ws[5], 255),
        ) {
            (Some(id), Some(t), Some(a), Some(ap), Some(p)) => match spec_kind_of_token(t as u8) {
                Some(kind) => match (a, ap, p) {
                    (None, None, None) => Some(RoomEdge { id: id as u8, kind, anchor: None }),
                    (Some(a), Some(ap), Some(p)) => if ap < PORTS && p < PORTS {
                        Some(RoomEdge { id: id as u8, kind, anchor: Some((a as u8, ap as u8, p as u8)) })
                    } else {
                        None
                    },
                    _ => None,
                },
                None => None,
            },
            _ => None,
        }
    }
}

/// Whether an edge names a slot and ports that exist.
pub open spec fn edge_ok(e: RoomEdge) -> bool {
    &&& e.id < MAX_ROOMS
    &&& e.anchor matches Some((a, ap, p)) ==> ap < PORTS && p < PORTS
}

/// **A room line reads back as its edge.**
pub proof fn lemma_room_line_round_trip(e: RoomEdge)
    requires
        edge_ok(e),
    ensures
        spec_read_room(room_text(e)) == Some(e),
{
    lemma_key_bytes(Key::Room);
    lemma_dec_word(e.id as nat);
    lemma_dec_word(e.kind.spec_token() as nat);
    assert(spec_kind_of_token(e.kind.spec_token()) == Some(e.kind));
    assert(spaceless(w_none()));
    assert(opt_word(w_none(), 255) == Some(None::<nat>));
    if let Some((a, ap, p)) = e.anchor {
        lemma_dec_word(a as nat);
        lemma_dec_word(ap as nat);
        lemma_dec_word(p as nat);
    }
    let ws = room_words(e);
    assert(good_words(ws));
    lemma_line_words(ws);
}

/// Append the `room` line of an edge.
pub fn write_room(out: &mut Vec<u8>, e: RoomEdge)
    ensures
        final(out)@ == old(out)@ + room_text(e),
{
    let ws = match e.anchor {
        None => vec![
            key_word(Key::Room),
            dec_word(e.id as u64),
            dec_word(e.kind.token() as u64),
            opt_word_of(None),
            opt_word_of(None),
            opt_word_of(None),
        ],
        Some((a, ap, p)) => vec![
            key_word(Key::Room),
            dec_word(e.id as u64),
            dec_word(e.kind.token() as u64),
            dec_word(a as u64),
            dec_word(ap as u64),
            dec_word(p as u64),
        ],
    };
    assert(views(ws@) =~= room_words(e));
    write_line(out, ws.as_slice());
}

/// What a `room` line names.
pub fn read_room(line: &[u8]) -> (r: Option<RoomEdge>)
    ensures
        r == spec_read_room(line@),
{
    let sp = match read_words(line, 0, 6) {
        Some(sp) => sp,
        None => return None,
    };
    if !crate::text::word_is(line, sp[0].0, sp[0].1, key_word(Key::Room).as_slice()) {
        return None;
    }
    let id = num_in(line, sp[1], (MAX_ROOMS - 1) as u64);
    let t = num_in(line, sp[2], 255);
    let a = read_opt(line, sp[3].0, sp[3].1, 255);
    let ap = read_opt(line, sp[4].0, sp[4].1, 255);
    let p = read_opt(line, sp[5].0, sp[5].1, 255);
    match (id, t, a, ap, p) {
        (Some(id), Some(t), Some(a), Some(ap), Some(p)) => match RoomKind::from_token(t as u8) {
            Some(kind) => match (a, ap, p) {
                (None, None, None) => Some(RoomEdge { id: id as u8, kind, anchor: None }),
                (Some(a), Some(ap), Some(p)) => if ap < PORTS as u64 && p < PORTS as u64 {
                    Some(RoomEdge { id: id as u8, kind, anchor: Some((a as u8, ap as u8, p as u8)) })
                } else {
                    None
                },
                _ => None,
            },
            None => None,
        },
        _ => None,
    }
}

// ---------------------------------------------------------------------
// The marks line
// ---------------------------------------------------------------------

/// Most marks a document may hold.
pub const MARKS_CAP: usize = 4096;

/// Whether `s` rises strictly.
pub open spec fn strictly_ascending(s: Seq<u32>) -> bool {
    forall|i: int, j: int| 0 <= i < j < s.len() ==> #[trigger] s[i] < #[trigger] s[j]
}

/// Whether `r` holds the ids of `ids`, each once, in ascending order.
pub open spec fn tidy(ids: Seq<u32>, r: Seq<u32>) -> bool {
    strictly_ascending(r) && forall|x: u32| #[trigger] r.contains(x) <==> ids.contains(x)
}

/// The ids of `ids`, each once, in ascending order, as a value: there is
/// exactly one such list.
pub open spec fn tidied(ids: Seq<u32>) -> Seq<u32> {
    choose|r: Seq<u32>| tidy(ids, r)
}

/// Two strictly rising lists with the same members are one list.
pub proof fn lemma_rising_unique(a: Seq<u32>, b: Seq<u32>)
    requires
        strictly_ascending(a),
        strictly_ascending(b),
        forall|x: u32| #[trigger] a.contains(x) <==> b.contains(x),
    ensures
        a == b,
    decreases a.len(),
{
    if a.len() == 0 {
        if b.len() > 0 {
            assert(b.contains(b[0]));
            assert(a.contains(b[0]));
        }
        assert(a =~= b);
    } else if b.len() == 0 {
        assert(a.contains(a[0]));
    } else {
        assert(a.contains(a[0]));
        let k = choose|k: int| 0 <= k < b.len() && b[k] == a[0];
        assert(b.contains(b[0]));
        assert(a.contains(b[0]));
        let m = choose|m: int| 0 <= m < a.len() && a[m] == b[0];
        if k > 0 {
            assert(b[0] < b[k]);
            if m > 0 {
                assert(a[0] < a[m]);
            }
            assert(false);
        }
        assert(a[0] == b[0]);
        let a1 = a.drop_first();
        let b1 = b.drop_first();
        assert forall|x: u32| #[trigger] a1.contains(x) <==> b1.contains(x) by {
            if a1.contains(x) {
                let i = choose|i: int| 0 <= i < a1.len() && a1[i] == x;
                assert(a[i + 1] == x);
                assert(a[0] < a[i + 1]);
                assert(a.contains(x));
                let j = choose|j: int| 0 <= j < b.len() && b[j] == x;
                assert(j != 0);
                assert(b1[j - 1] == x);
            }
            if b1.contains(x) {
                let i = choose|i: int| 0 <= i < b1.len() && b1[i] == x;
                assert(b[i + 1] == x);
                assert(b[0] < b[i + 1]);
                assert(b.contains(x));
                assert(a.contains(x));
                let j = choose|j: int| 0 <= j < a.len() && a[j] == x;
                assert(j != 0);
                assert(a1[j - 1] == x);
            }
        }
        lemma_rising_unique(a1, b1);
        assert(a =~= b) by {
            assert forall|i: int| 0 <= i < a.len() implies a[i] == b[i] by {
                if i > 0 {
                    assert(a[i] == a1[i - 1]);
                    assert(b[i] == b1[i - 1]);
                }
            }
        }
    }
}

/// The ids of `ids`, each once, in ascending order.
pub fn tidy_ids(ids: &Vec<u32>) -> (r: Vec<u32>)
    ensures
        r@ == tidied(ids@),
{
    let sorted = sort_ids(ids);
    proof {
        assert forall|x: u32| sorted@.contains(x) <==> ids@.contains(x) by {
            assert(sorted@.to_multiset().count(x) == ids@.to_multiset().count(x));
            sorted@.to_multiset_ensures();
            ids@.to_multiset_ensures();
        }
    }
    let mut out: Vec<u32> = Vec::new();
    let mut i: usize = 0;
    while i < sorted.len()
        invariant
            i <= sorted@.len(),
            ascending(sorted@),
            strictly_ascending(out@),
            forall|x: u32| #[trigger] out@.contains(x) <==> sorted@.take(i as int).contains(x),
            i > 0 ==> out@.len() > 0 && out@.last() == sorted@[i - 1],
            i == 0 ==> out@.len() == 0,
        decreases sorted@.len() - i,
    {
        let x = sorted[i];
        let ghost before = out@;
        let fresh = out.len() == 0 || out[out.len() - 1] != x;
        if fresh {
            proof {
                if i > 0 {
                    assert(sorted@[i - 1] <= sorted@[i as int]);
                }
            }
            out.push(x);
            proof {
                assert forall|p: int, q: int| 0 <= p < q < out@.len() implies #[trigger] out@[p] < #[trigger] out@[q] by {
                    if q == out@.len() - 1 && p < q {
                        if p < before.len() - 1 {
                            assert(before[p] < before[before.len() - 1]);
                        }
                        assert(out@[p] == before[p]);
                    } else {
                        assert(out@[p] == before[p]);
                        assert(out@[q] == before[q]);
                    }
                }
            }
        }
        proof {
            assert(sorted@.take(i + 1) =~= sorted@.take(i as int).push(x));
            assert forall|y: u32| #[trigger] out@.contains(y) <==> sorted@.take(i + 1).contains(y) by {
                if fresh {
                    assert(out@ =~= before.push(x));
                    if before.contains(y) {
                        let k = choose|k: int| 0 <= k < before.len() && before[k] == y;
                        assert(out@[k] == y);
                    }
                    if out@.contains(y) && y != x {
                        let k = choose|k: int| 0 <= k < out@.len() && out@[k] == y;
                        assert(before[k] == y);
                    }
                    if sorted@.take(i as int).contains(y) {
                        let k = choose|k: int| 0 <= k < i && #[trigger] sorted@.take(i as int)[k] == y;
                        assert(sorted@.take(i + 1)[k] == y);
                    }
                    if sorted@.take(i + 1).contains(y) && y != x {
                        let k = choose|k: int| 0 <= k < i + 1 && #[trigger] sorted@.take(i + 1)[k] == y;
                        assert(sorted@.take(i as int)[k] == y);
                    }
                    assert(out@[out@.len() - 1] == x);
                    assert(sorted@.take(i + 1)[i as int] == x);
                } else {
                    assert(out@.last() == x);
                    assert(out@.contains(x));
                    if sorted@.take(i as int).contains(y) {
                        let k = choose|k: int| 0 <= k < i && #[trigger] sorted@.take(i as int)[k] == y;
                        assert(sorted@.take(i + 1)[k] == y);
                    }
                    if sorted@.take(i + 1).contains(y) && y != x {
                        let k = choose|k: int| 0 <= k < i + 1 && #[trigger] sorted@.take(i + 1)[k] == y;
                        assert(sorted@.take(i as int)[k] == y);
                    }
                    assert(sorted@.take(i + 1)[i as int] == x);
                }
            }
        }
        i = i + 1;
    }
    proof {
        assert(sorted@.take(sorted@.len() as int) =~= sorted@);
        assert(tidy(ids@, out@));
        lemma_rising_unique(out@, tidied(ids@));
    }
    out
}

/// The numbers of a list of ids.
pub open spec fn id_nats(ids: Seq<u32>) -> Seq<nat> {
    ids.map_values(|n: u32| n as nat)
}

/// The `marks` line: how many, then each id.
pub open spec fn marks_text(marks: Seq<u32>) -> Seq<u8> {
    line_text(seq![key_bytes(Key::Marks), dec_bytes(marks.len())] + dec_words(id_nats(marks)))
}

/// What a `marks` line names: a count no larger than [`MARKS_CAP`],
/// then that many ids, kept each once in ascending order.
pub open spec fn spec_read_marks(line: Seq<u8>) -> Option<Seq<u32>> {
    let ws = words(line);
    if ws.len() < 2 || ws[0] != key_bytes(Key::Marks) {
        None
    } else {
        match word_upto(ws[1], MARKS_CAP as nat) {
            None => None,
            Some(c) => if ws.len() < 2 + c {
                None
            } else if forall|j: int| 0 <= j < c ==> #[trigger] word_upto(ws[2 + j], u32::MAX as nat) is Some {
                Some(tidied(Seq::new(c, |j: int| word_upto(ws[2 + j], u32::MAX as nat)->0 as u32)))
            } else {
                None
            },
        }
    }
}

/// **A marks line reads back as its marks**, kept each once in
/// ascending order as the player's marks are.
pub proof fn lemma_marks_line_round_trip(marks: Seq<u32>)
    requires
        strictly_ascending(marks),
        marks.len() <= MARKS_CAP,
    ensures
        spec_read_marks(marks_text(marks)) == Some(marks),
{
    lemma_key_bytes(Key::Marks);
    lemma_dec_word(marks.len());
    let dw = dec_words(id_nats(marks));
    let ws = seq![key_bytes(Key::Marks), dec_bytes(marks.len())] + dw;
    assert forall|j: int| 0 <= j < marks.len() implies #[trigger] dw[j].len() >= 1 && spaceless(dw[j]) && word_upto(
        dw[j],
        u32::MAX as nat,
    ) == Some(marks[j] as nat) by {
        lemma_dec_word(marks[j] as nat);
    }
    assert(good_words(ws)) by {
        assert forall|j: int| 0 <= j < ws.len() implies #[trigger] ws[j].len() >= 1 && spaceless(ws[j]) by {
            if j >= 2 {
                assert(ws[j] == dw[j - 2]);
            }
        }
    }
    lemma_line_words(ws);
    let rd = words(marks_text(marks));
    assert(rd == ws);
    assert forall|j: int| 0 <= j < marks.len() implies #[trigger] word_upto(rd[2 + j], u32::MAX as nat) is Some by {
        assert(rd[2 + j] == dw[j]);
    }
    let got = Seq::new(marks.len(), |j: int| word_upto(rd[2 + j], u32::MAX as nat)->0 as u32);
    assert(got =~= marks) by {
        assert forall|j: int| 0 <= j < marks.len() implies got[j] == marks[j] by {
            assert(rd[2 + j] == dw[j]);
        }
    }
    assert(tidy(got, marks));
    lemma_rising_unique(marks, tidied(got));
}

/// Append the `marks` line.
pub fn write_marks(out: &mut Vec<u8>, marks: &[u32])
    ensures
        final(out)@ == old(out)@ + marks_text(marks@),
{
    let mut ws: Vec<Vec<u8>> = Vec::new();
    ws.push(key_word(Key::Marks));
    ws.push(dec_word(marks.len() as u64));
    let mut j: usize = 0;
    while j < marks.len()
        invariant
            j <= marks@.len(),
            ws@.len() == j + 2,
            ws@[0]@ == key_bytes(Key::Marks),
            ws@[1]@ == dec_bytes(marks@.len()),
            forall|q: int| 0 <= q < j ==> #[trigger] ws@[q + 2]@ == dec_words(id_nats(marks@))[q],
        decreases marks@.len() - j,
    {
        ws.push(dec_word(marks[j] as u64));
        j = j + 1;
    }
    assert(views(ws@) =~= seq![key_bytes(Key::Marks), dec_bytes(marks@.len())] + dec_words(id_nats(marks@))) by {
        assert forall|q: int| 0 <= q < ws@.len() implies #[trigger] views(ws@)[q] == (seq![
            key_bytes(Key::Marks),
            dec_bytes(marks@.len()),
        ] + dec_words(id_nats(marks@)))[q] by {
            if q >= 2 {
                assert(ws@[(q - 2) + 2]@ == dec_words(id_nats(marks@))[q - 2]);
            }
        }
    }
    write_line(out, ws.as_slice());
}

/// What a `marks` line names.
pub fn read_marks(line: &[u8]) -> (r: Option<Vec<u32>>)
    ensures
        match spec_read_marks(line@) {
            Some(m) => r matches Some(v) && v@ == m,
            None => r is None,
        },
{
    let ghost ws = words(line@);
    let sp = match read_words(line, 0, 2) {
        Some(sp) => sp,
        None => return None,
    };
    if !crate::text::word_is(line, sp[0].0, sp[0].1, key_word(Key::Marks).as_slice()) {
        return None;
    }
    let count = match num_in(line, sp[1], MARKS_CAP as u64) {
        Some(c) => c as usize,
        None => return None,
    };
    let sp = match read_words(line, 0, count + 2) {
        Some(sp) => sp,
        None => return None,
    };
    let mut ids: Vec<u32> = Vec::new();
    let mut j: usize = 0;
    while j < count
        invariant
            j <= count,
            count <= MARKS_CAP,
            sp@.len() == count + 2,
            ws == words(line@),
            ws.len() >= count + 2,
            spans_match(line@, ws, sp@),
            ids@.len() == j,
            forall|q: int| 0 <= q < j ==> #[trigger] word_upto(ws[2 + q], u32::MAX as nat) == Some(ids@[q] as nat),
            ws[0] == key_bytes(Key::Marks),
            word_upto(ws[1], MARKS_CAP as nat) == Some(count as nat),
        decreases count - j,
    {
        let (a, b) = sp[j + 2];
        proof {
            assert(ws[j + 2] == line@.subrange(a as int, b as int));
        }
        match num_in(line, (a, b), u32::MAX as u64) {
            Some(n) => {
                ids.push(n as u32);
            },
            None => {
                proof {
                    assert(word_upto(ws[2 + j], u32::MAX as nat) is None);
                }
                return None;
            },
        }
        j = j + 1;
    }
    proof {
        assert(ids@ =~= Seq::new(count as nat, |q: int| word_upto(ws[2 + q], u32::MAX as nat)->0 as u32));
    }
    Some(tidy_ids(&ids))
}

// ---------------------------------------------------------------------
// Each line is one whole line
// ---------------------------------------------------------------------

/// The key-value, hexadecimal key-value and list lines are each one
/// whole line.
pub proof fn lemma_kv_one(k: Key, n: nat, min: nat, ns: Seq<nat>, hex: bool)
    ensures
        one_line(kv_text(k, n)),
        one_line(hex_kv_text(k, n, min)),
        one_line(list_text(k, ns, hex, min)),
{
    lemma_key_bytes(k);
    lemma_dec_word(n);
    lemma_hex_bytes(n, min);
    let a = seq![key_bytes(k), dec_bytes(n)];
    assert(good_words(a));
    lemma_line_text_one(a);
    let b = seq![key_bytes(k), hex_bytes(n, min)];
    assert(good_words(b));
    lemma_line_text_one(b);
    let lw = list_words(ns, hex, min);
    let c = seq![key_bytes(k)] + lw;
    assert forall|j: int| 0 <= j < ns.len() implies #[trigger] lw[j].len() >= 1 && spaceless(lw[j]) by {
        if hex {
            lemma_hex_bytes(ns[j], min);
        } else {
            lemma_dec_word(ns[j]);
        }
    }
    assert(good_words(c)) by {
        assert forall|j: int| 0 <= j < c.len() implies #[trigger] c[j].len() >= 1 && spaceless(c[j]) by {
            if j > 0 {
                assert(c[j] == lw[j - 1]);
            }
        }
    }
    lemma_line_text_one(c);
}

/// The ship, omen, parade and room lines are each one whole line.
pub proof fn lemma_state_lines_one(
    state: ShipState,
    selected: Option<PoiId>,
    stoke: u64,
    jump_at: Option<u64>,
    phase: Phase,
    light: u32,
    swell: u32,
    parade_at: Option<u64>,
    comet_visit: Option<u64>,
    e: RoomEdge,
)
    ensures
        one_line(ship_text(state, selected, stoke)),
        one_line(omen_text(jump_at, phase, light, swell)),
        one_line(parade_text(parade_at, comet_visit)),
        one_line(room_text(e)),
{
    lemma_key_bytes(Key::Ship);
    lemma_key_bytes(Key::Docked);
    lemma_key_bytes(Key::Travel);
    lemma_key_bytes(Key::Omen);
    lemma_key_bytes(Key::Idle);
    lemma_key_bytes(Key::Wake);
    lemma_key_bytes(Key::Parade);
    lemma_key_bytes(Key::Room);
    lemma_opt_bytes(poi_opt(selected), u64::MAX as nat);
    lemma_opt_bytes(nat_opt(jump_at), u64::MAX as nat);
    lemma_opt_bytes(nat_opt(parade_at), u64::MAX as nat);
    lemma_opt_bytes(nat_opt(comet_visit), u64::MAX as nat);
    lemma_dec_word(stoke as nat);
    lemma_dec_word(0);
    lemma_hex_bytes(light as nat, 8);
    lemma_hex_bytes(swell as nat, 8);
    match state {
        ShipState::Docked(at) => {
            lemma_dec_word(at as nat);
        },
        ShipState::Traveling { from, to, progress, leg_ticks } => {
            lemma_dec_word(from as nat);
            lemma_dec_word(to as nat);
            lemma_dec_word(progress as nat);
            lemma_dec_word(leg_ticks as nat);
        },
    }
    match phase {
        Phase::Idle => {},
        Phase::Omen { elapsed } => {
            lemma_dec_word(elapsed as nat);
        },
        Phase::Wake { elapsed } => {
            lemma_dec_word(elapsed as nat);
        },
    }
    lemma_dec_word(e.id as nat);
    lemma_dec_word(e.kind.spec_token() as nat);
    assert(spaceless(w_none()));
    if let Some((a, ap, p)) = e.anchor {
        lemma_dec_word(a as nat);
        lemma_dec_word(ap as nat);
        lemma_dec_word(p as nat);
    }
    let sw = ship_words(state, selected, stoke);
    assert(good_words(sw));
    lemma_line_text_one(sw);
    let ow = omen_words(jump_at, phase, light, swell);
    assert(good_words(ow));
    lemma_line_text_one(ow);
    let pw = seq![key_bytes(Key::Parade), opt_bytes(nat_opt(parade_at)), opt_bytes(nat_opt(comet_visit))];
    assert(good_words(pw));
    lemma_line_text_one(pw);
    let rw = room_words(e);
    assert(good_words(rw));
    lemma_line_text_one(rw);
}

/// The marks line is one whole line.
pub proof fn lemma_marks_one(marks: Seq<u32>)
    ensures
        one_line(marks_text(marks)),
{
    lemma_key_bytes(Key::Marks);
    lemma_dec_word(marks.len());
    let dw = dec_words(id_nats(marks));
    let ws = seq![key_bytes(Key::Marks), dec_bytes(marks.len())] + dw;
    assert forall|j: int| 0 <= j < marks.len() implies #[trigger] dw[j].len() >= 1 && spaceless(dw[j]) by {
        lemma_dec_word(marks[j] as nat);
    }
    assert(good_words(ws)) by {
        assert forall|j: int| 0 <= j < ws.len() implies #[trigger] ws[j].len() >= 1 && spaceless(ws[j]) by {
            if j >= 2 {
                assert(ws[j] == dw[j - 2]);
            }
        }
    }
    lemma_line_text_one(ws);
}

} // verus!
