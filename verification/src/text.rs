//! Text: decimal digits for the error messages, and the byte-level
//! pieces of the save grammar — words split on ASCII whitespace, and
//! unsigned numbers read and written in decimal.

use vstd::prelude::*;
use vstd::string::StrSliceExecFns;
use vstd::string::StringExecFns;

verus! {

/// The character for decimal digit `d`.
pub open spec fn digit_char(d: nat) -> char {
    if d == 0 {
        '0'
    } else if d == 1 {
        '1'
    } else if d == 2 {
        '2'
    } else if d == 3 {
        '3'
    } else if d == 4 {
        '4'
    } else if d == 5 {
        '5'
    } else if d == 6 {
        '6'
    } else if d == 7 {
        '7'
    } else if d == 8 {
        '8'
    } else {
        '9'
    }
}

/// The decimal digits of `n`, most significant first, with no leading
/// zeros (and `"0"` for zero).
pub open spec fn decimal(n: nat) -> Seq<char>
    decreases n,
{
    if n < 10 {
        seq![digit_char(n)]
    } else {
        decimal(n / 10).push(digit_char(n % 10))
    }
}

/// The one-character text of decimal digit `d`.
fn digit_text(d: usize) -> (r: &'static str)
    requires
        d < 10,
    ensures
        r@ == seq![digit_char(d as nat)],
{
    proof {
        reveal_strlit("0");
        reveal_strlit("1");
        reveal_strlit("2");
        reveal_strlit("3");
        reveal_strlit("4");
        reveal_strlit("5");
        reveal_strlit("6");
        reveal_strlit("7");
        reveal_strlit("8");
        reveal_strlit("9");
    }
    if d == 0 {
        "0"
    } else if d == 1 {
        "1"
    } else if d == 2 {
        "2"
    } else if d == 3 {
        "3"
    } else if d == 4 {
        "4"
    } else if d == 5 {
        "5"
    } else if d == 6 {
        "6"
    } else if d == 7 {
        "7"
    } else if d == 8 {
        "8"
    } else {
        "9"
    }
}

/// Append the decimal digits of `n` to `out`.
pub fn push_decimal(out: &mut String, n: usize)
    ensures
        final(out)@ == old(out)@ + decimal(n as nat),
    decreases n,
{
    if n >= 10 {
        push_decimal(out, n / 10);
    }
    out.append(digit_text(n % 10));
    proof {
        if n >= 10 {
            assert(decimal(n as nat) == decimal((n / 10) as nat).push(digit_char((n % 10) as nat)));
        }
    }
    assert(out@ =~= old(out)@ + decimal(n as nat));
}

/// Whether byte `b` is ASCII whitespace: space, tab, line feed, vertical
/// tab, form feed, or carriage return.
pub open spec fn is_space(b: u8) -> bool {
    b == 32 || (9 <= b && b <= 13)
}

/// Whether byte `b` is a decimal digit.
pub open spec fn is_digit(b: u8) -> bool {
    48 <= b && b <= 57
}

/// Where the word starting at `i` ends: the first whitespace byte at or
/// after `i`, or the end.
pub open spec fn word_end(s: Seq<u8>, i: int) -> int
    decreases s.len() - i,
{
    if i < 0 || i >= s.len() || is_space(s[i]) {
        i
    } else {
        word_end(s, i + 1)
    }
}

/// A word never ends before it starts, nor past the text.
pub proof fn lemma_word_end_bounds(s: Seq<u8>, i: int)
    ensures
        word_end(s, i) >= i,
        0 <= i <= s.len() ==> word_end(s, i) <= s.len(),
        0 <= i < s.len() && !is_space(s[i]) ==> word_end(s, i) > i,
    decreases s.len() - i,
{
    if 0 <= i < s.len() && !is_space(s[i]) {
        lemma_word_end_bounds(s, i + 1);
    }
}

/// The words of `s` from index `i` on, split on whitespace.
pub open spec fn words_from(s: Seq<u8>, i: int) -> Seq<Seq<u8>>
    decreases s.len() - i,
{
    if i < 0 || i >= s.len() {
        Seq::empty()
    } else if is_space(s[i]) {
        words_from(s, i + 1)
    } else {
        proof {
            lemma_word_end_bounds(s, i);
        }
        seq![s.subrange(i, word_end(s, i))] + words_from(s, word_end(s, i))
    }
}

/// The words of `s`, split on whitespace.
pub open spec fn words(s: Seq<u8>) -> Seq<Seq<u8>> {
    words_from(s, 0)
}

/// The value of a run of decimal digits.
pub open spec fn digits_value(s: Seq<u8>) -> nat
    decreases s.len(),
{
    if s.len() == 0 {
        0
    } else {
        10 * digits_value(s.drop_last()) + (s.last() - 48) as nat
    }
}

/// A word with its optional leading `+` taken off.
pub open spec fn unsigned_digits(t: Seq<u8>) -> Seq<u8> {
    if t.len() > 0 && t[0] == 43 {
        t.drop_first()
    } else {
        t
    }
}

/// Whether every byte of `d` is a decimal digit.
pub open spec fn all_digits(d: Seq<u8>) -> bool {
    forall|k: int| 0 <= k < d.len() ==> is_digit(#[trigger] d[k])
}

/// The number a word names, as an unsigned integer's text reads: an
/// optional `+`, then one or more decimal digits.
pub open spec fn word_value(t: Seq<u8>) -> Option<nat> {
    let d = unsigned_digits(t);
    if d.len() > 0 && all_digits(d) {
        Some(digits_value(d))
    } else {
        None
    }
}

/// The decimal digits of `n` as bytes, most significant first.
pub open spec fn dec_bytes(n: nat) -> Seq<u8>
    decreases n,
{
    if n < 10 {
        seq![(48 + n) as u8]
    } else {
        dec_bytes(n / 10).push((48 + n % 10) as u8)
    }
}

/// Decimal digits read back as the number they were written from.
pub proof fn lemma_dec_bytes(n: nat)
    ensures
        dec_bytes(n).len() >= 1,
        forall|k: int| 0 <= k < dec_bytes(n).len() ==> is_digit(#[trigger] dec_bytes(n)[k]),
        digits_value(dec_bytes(n)) == n,
        word_value(dec_bytes(n)) == Some(n),
    decreases n,
{
    if n >= 10 {
        lemma_dec_bytes(n / 10);
        let d = dec_bytes(n / 10);
        assert(dec_bytes(n).drop_last() =~= d);
        assert(n == 10 * (n / 10) + n % 10);
        assert(dec_bytes(n).last() == (48 + n % 10) as u8);
        assert forall|k: int| 0 <= k < dec_bytes(n).len() implies is_digit(#[trigger] dec_bytes(n)[k]) by {
            if k < d.len() {
                assert(dec_bytes(n)[k] == d[k]);
            }
        }
    } else {
        assert(dec_bytes(n).drop_last() =~= Seq::<u8>::empty());
        assert(digits_value(Seq::<u8>::empty()) == 0);
    }
    assert(!(dec_bytes(n)[0] == 43));
}

/// Append the decimal digits of `n` to `out`.
pub fn push_dec(out: &mut Vec<u8>, n: u64)
    ensures
        final(out)@ == old(out)@ + dec_bytes(n as nat),
    decreases n,
{
    if n >= 10 {
        push_dec(out, n / 10);
    }
    out.push(48 + (n % 10) as u8);
    proof {
        if n >= 10 {
            assert(dec_bytes(n as nat) == dec_bytes((n / 10) as nat).push((48 + (n % 10) as nat) as u8));
        }
    }
    assert(out@ =~= old(out)@ + dec_bytes(n as nat));
}

/// Where the next word of `s` at or after `i` starts and ends, if there
/// is one: the words from `i` are that word, then the words after it.
pub fn next_word(s: &[u8], i: usize) -> (r: Option<(usize, usize)>)
    requires
        i <= s@.len(),
    ensures
        match r {
            Some((a, b)) => i <= a < b <= s@.len() && words_from(s@, i as int) == seq![s@.subrange(a as int, b as int)]
                + words_from(s@, b as int),
            None => words_from(s@, i as int) == Seq::<Seq<u8>>::empty(),
        },
{
    let mut a = i;
    while a < s.len() && (s[a] == 32 || (9 <= s[a] && s[a] <= 13))
        invariant
            i <= a <= s@.len(),
            words_from(s@, i as int) == words_from(s@, a as int),
        decreases s@.len() - a,
    {
        a = a + 1;
    }
    if a >= s.len() {
        return None;
    }
    let mut b = a;
    while b < s.len() && !(s[b] == 32 || (9 <= s[b] && s[b] <= 13))
        invariant
            a <= b <= s@.len(),
            a < s@.len(),
            !is_space(s@[a as int]),
            word_end(s@, a as int) == word_end(s@, b as int),
            b > a || b == a,
        decreases s@.len() - b,
    {
        b = b + 1;
    }
    proof {
        lemma_word_end_bounds(s@, a as int);
    }
    Some((a, b))
}

/// The number word `s[a..b]` names, if it names one that fits a `u64`.
pub fn word_u64(s: &[u8], a: usize, b: usize) -> (r: Option<u64>)
    requires
        a <= b <= s@.len(),
    ensures
        r == match word_value(s@.subrange(a as int, b as int)) {
            Some(v) => if v <= u64::MAX {
                Some(v as u64)
            } else {
                None::<u64>
            },
            None => None::<u64>,
        },
{
    let ghost t = s@.subrange(a as int, b as int);
    let mut k = a;
    if k < b && s[k] == 43 {
        k = k + 1;
    }
    let ghost d = unsigned_digits(t);
    assert(d =~= s@.subrange(k as int, b as int));
    if k >= b {
        return None;
    }
    let mut value: u64 = 0;
    let mut over = false;
    let mut j = k;
    while j < b
        invariant
            k <= j <= b <= s@.len(),
            t == s@.subrange(a as int, b as int),
            d == unsigned_digits(t),
            d == s@.subrange(k as int, b as int),
            forall|q: int| k <= q < j ==> is_digit(#[trigger] s@[q]),
            !over ==> value as nat == digits_value(s@.subrange(k as int, j as int)),
            over ==> digits_value(s@.subrange(k as int, j as int)) > u64::MAX,
        decreases b - j,
    {
        let c = s[j];
        if c < 48 || c > 57 {
            proof {
                assert(d[j - k] == c);
                assert(!is_digit(d[j - k]));
                assert(!all_digits(d));
            }
            return None;
        }
        proof {
            let prev = s@.subrange(k as int, j as int);
            let next = s@.subrange(k as int, j + 1);
            assert(next.drop_last() =~= prev);
            assert(next.last() == c);
            assert(digits_value(next) == 10 * digits_value(prev) + (c - 48) as nat);
        }
        if !over {
            if value > (u64::MAX - (c - 48) as u64) / 10 {
                over = true;
                proof {
                    let prev = s@.subrange(k as int, j as int);
                    assert(10 * (value as int) + (c - 48) > u64::MAX) by (nonlinear_arith)
                        requires
                            value > (u64::MAX - (c - 48) as u64) / 10,
                            0 <= c - 48 <= 9,
                    ;
                }
            } else {
                proof {
                    assert(10 * (value as int) + (c - 48) <= u64::MAX) by (nonlinear_arith)
                        requires
                            value <= (u64::MAX - (c - 48) as u64) / 10,
                            0 <= c - 48 <= 9,
                    ;
                }
                value = value * 10 + (c - 48) as u64;
            }
        } else {
            proof {
                let prev = s@.subrange(k as int, j as int);
                assert(10 * digits_value(prev) + (c - 48) > u64::MAX);
            }
        }
        j = j + 1;
    }
    proof {
        assert(forall|q: int| 0 <= q < d.len() ==> is_digit(#[trigger] d[q]) <== (forall|q: int|
            k <= q < b ==> is_digit(#[trigger] s@[q]))) by {
            assert forall|q: int| 0 <= q < d.len() implies is_digit(#[trigger] d[q]) by {
                assert(d[q] == s@[k + q]);
            }
        }
    }
    if over {
        None
    } else {
        Some(value)
    }
}

/// Whether word `s[a..b]` is exactly `lit`.
pub fn word_is(s: &[u8], a: usize, b: usize, lit: &[u8]) -> (r: bool)
    requires
        a <= b <= s@.len(),
    ensures
        r == (s@.subrange(a as int, b as int) == lit@),
{
    if b - a != lit.len() {
        return false;
    }
    let mut k: usize = 0;
    while k < lit.len()
        invariant
            b - a == lit@.len(),
            a <= b <= s@.len(),
            k <= lit@.len(),
            forall|q: int| 0 <= q < k ==> s@[a + q] == lit@[q],
        decreases lit@.len() - k,
    {
        if s[a + k] != lit[k] {
            proof {
                assert(s@.subrange(a as int, b as int)[k as int] != lit@[k as int]);
            }
            return false;
        }
        k = k + 1;
    }
    assert(s@.subrange(a as int, b as int) =~= lit@);
    true
}

/// Whether no byte of `w` is whitespace.
pub open spec fn spaceless(w: Seq<u8>) -> bool {
    forall|k: int| 0 <= k < w.len() ==> !is_space(#[trigger] w[k])
}

/// Words after a prefix are the words of what follows it.
pub proof fn lemma_words_shift(p: Seq<u8>, b: Seq<u8>, j: int)
    requires
        0 <= j <= b.len(),
    ensures
        words_from(p + b, p.len() + j) == words_from(b, j),
    decreases b.len() - j,
{
    let s = p + b;
    if j < b.len() {
        assert(s[p.len() + j] == b[j]);
        if is_space(b[j]) {
            lemma_words_shift(p, b, j + 1);
        } else {
            lemma_word_end_shift(p, b, j);
            lemma_word_end_bounds(b, j);
            lemma_words_shift(p, b, word_end(b, j));
            assert(s.subrange(p.len() + j, p.len() + word_end(b, j)) =~= b.subrange(j, word_end(b, j)));
        }
    }
}

/// A word's end after a prefix is its end in what follows, moved along.
proof fn lemma_word_end_shift(p: Seq<u8>, b: Seq<u8>, j: int)
    requires
        0 <= j <= b.len(),
    ensures
        word_end(p + b, p.len() + j) == p.len() + word_end(b, j),
    decreases b.len() - j,
{
    if j < b.len() {
        assert((p + b)[p.len() + j] == b[j]);
        if !is_space(b[j]) {
            lemma_word_end_shift(p, b, j + 1);
        }
    }
}

/// A word runs to the separator after it.
proof fn lemma_word_end_at(w: Seq<u8>, rest: Seq<u8>, i: int)
    requires
        spaceless(w),
        rest.len() > 0,
        is_space(rest[0]),
        0 <= i <= w.len(),
    ensures
        word_end(w + rest, i) == w.len(),
    decreases w.len() - i,
{
    let s = w + rest;
    if i < w.len() {
        assert(s[i] == w[i]);
        lemma_word_end_at(w, rest, i + 1);
    } else {
        assert(s[i] == rest[0]);
    }
}

/// The words of a word, a separator, and a rest: that word, then the
/// words of the rest.
pub proof fn lemma_words_lead(w: Seq<u8>, sep: u8, rest: Seq<u8>)
    requires
        w.len() >= 1,
        spaceless(w),
        is_space(sep),
    ensures
        words(w + seq![sep] + rest) == seq![w] + words(rest),
{
    let s = w + seq![sep] + rest;
    let tail = seq![sep] + rest;
    assert(s =~= w + tail);
    assert(!is_space(s[0])) by {
        assert(s[0] == w[0]);
    }
    lemma_word_end_at(w, tail, 0);
    assert(word_end(s, 0) == w.len());
    assert(s.subrange(0, w.len() as int) =~= w);
    assert(s[w.len() as int] == sep);
    lemma_words_shift(w + seq![sep], rest, 0);
    assert((w + seq![sep]) + rest =~= s);
    assert(words_from(s, w.len() as int) == words_from(s, w.len() as int + 1));
    assert(words_from(s, w.len() as int + 1) == words(rest));
    assert(words_from(s, 0) == seq![s.subrange(0, word_end(s, 0))] + words_from(s, word_end(s, 0)));
}

/// The words of a lone word ended by a separator: that word.
pub proof fn lemma_words_last(w: Seq<u8>, sep: u8)
    requires
        w.len() >= 1,
        spaceless(w),
        is_space(sep),
    ensures
        words(w + seq![sep]) == seq![w],
{
    lemma_words_lead(w, sep, Seq::empty());
    assert(w + seq![sep] + Seq::<u8>::empty() =~= w + seq![sep]);
    assert(words(Seq::<u8>::empty()) =~= Seq::<Seq<u8>>::empty());
    assert(seq![w] + Seq::<Seq<u8>>::empty() =~= seq![w]);
}

/// Decimal digits hold no whitespace.
pub proof fn lemma_dec_spaceless(n: nat)
    ensures
        spaceless(dec_bytes(n)),
        dec_bytes(n).len() >= 1,
{
    lemma_dec_bytes(n);
    assert forall|k: int| 0 <= k < dec_bytes(n).len() implies !is_space(#[trigger] dec_bytes(n)[k]) by {
        assert(is_digit(dec_bytes(n)[k]));
    }
}

/// Numbers written as decimal words separated by spaces, the line ended
/// by a line feed.
pub open spec fn numbers_text(ns: Seq<nat>) -> Seq<u8>
    decreases ns.len(),
{
    if ns.len() <= 1 {
        if ns.len() == 0 {
            seq![10u8]
        } else {
            dec_bytes(ns[0]) + seq![10u8]
        }
    } else {
        dec_bytes(ns[0]) + seq![32u8] + numbers_text(ns.drop_first())
    }
}

/// The decimal word of each number.
pub open spec fn dec_words(ns: Seq<nat>) -> Seq<Seq<u8>> {
    ns.map_values(|n: nat| dec_bytes(n))
}

/// The words of written numbers are their decimal words.
pub proof fn lemma_numbers_words(ns: Seq<nat>)
    ensures
        words(numbers_text(ns)) == dec_words(ns),
    decreases ns.len(),
{
    if ns.len() == 0 {
        assert(words(seq![10u8]) == words_from(seq![10u8], 1));
        assert(words(seq![10u8]) =~= Seq::<Seq<u8>>::empty());
        assert(dec_words(ns) =~= Seq::<Seq<u8>>::empty());
    } else if ns.len() == 1 {
        lemma_dec_spaceless(ns[0]);
        lemma_words_last(dec_bytes(ns[0]), 10);
        assert(dec_words(ns) =~= seq![dec_bytes(ns[0])]);
    } else {
        lemma_dec_spaceless(ns[0]);
        lemma_numbers_words(ns.drop_first());
        lemma_words_lead(dec_bytes(ns[0]), 32, numbers_text(ns.drop_first()));
        assert(dec_words(ns) =~= seq![dec_bytes(ns[0])] + dec_words(ns.drop_first()));
    }
}

/// Append numbers as decimal words separated by spaces, and a line feed.
pub fn write_numbers(out: &mut Vec<u8>, ns: &[u64])
    ensures
        final(out)@ == old(out)@ + numbers_text(ns@.map_values(|n: u64| n as nat)),
{
    let ghost all = ns@.map_values(|n: u64| n as nat);
    let ghost start = out@;
    assert(all.skip(0) =~= all);
    let mut k: usize = 0;
    while k < ns.len()
        invariant
            k <= ns@.len(),
            all == ns@.map_values(|n: u64| n as nat),
            start + numbers_text(all) == out@ + numbers_text(all.skip(k as int)),
        decreases ns@.len() - k,
    {
        let ghost before = out@;
        proof {
            let rest = all.skip(k as int);
            assert(rest.drop_first() =~= all.skip(k + 1));
            assert(rest[0] == ns@[k as int] as nat);
            if k + 1 == ns@.len() {
                assert(all.skip(k + 1) =~= Seq::<nat>::empty());
            }
        }
        push_dec(out, ns[k]);
        if k + 1 < ns.len() {
            out.push(32);
            proof {
                assert(out@ =~= before + dec_bytes(ns@[k as int] as nat) + seq![32u8]);
            }
        }
        k = k + 1;
    }
    proof {
        assert(all.skip(ns@.len() as int) =~= Seq::<nat>::empty());
    }
    out.push(10);
}

/// Whether each span in `sp` covers the word of `ws` at its position.
pub open spec fn spans_match(s: Seq<u8>, ws: Seq<Seq<u8>>, sp: Seq<(usize, usize)>) -> bool {
    forall|j: int|
        #![trigger ws[j]]
        #![trigger sp[j]]
        0 <= j < sp.len() ==> sp[j].0 <= sp[j].1 <= s.len() && ws[j] == s.subrange(sp[j].0 as int, sp[j].1 as int)
}

/// The spans of the next `k` words of `s` from `i` on, if there are that
/// many.
pub fn read_words(s: &[u8], i: usize, k: usize) -> (r: Option<Vec<(usize, usize)>>)
    requires
        i <= s@.len(),
    ensures
        match r {
            Some(sp) => sp@.len() == k && words_from(s@, i as int).len() >= k && spans_match(
                s@,
                words_from(s@, i as int),
                sp@,
            ),
            None => words_from(s@, i as int).len() < k,
        },
{
    let ghost ws = words_from(s@, i as int);
    let mut sp: Vec<(usize, usize)> = Vec::new();
    let mut pos = i;
    while sp.len() < k
        invariant
            i <= pos <= s@.len(),
            sp@.len() <= k,
            ws == words_from(s@, i as int),
            ws.len() == sp@.len() + words_from(s@, pos as int).len(),
            spans_match(s@, ws, sp@),
            ws.skip(sp@.len() as int) == words_from(s@, pos as int),
        decreases k - sp@.len(),
    {
        match next_word(s, pos) {
            Some((a, b)) => {
                let ghost old_sp = sp@;
                proof {
                    let n = sp@.len() as int;
                    assert(ws.skip(n)[0] == ws[n]);
                    assert(ws[n] == s@.subrange(a as int, b as int));
                    assert(ws.skip(n + 1) =~= ws.skip(n).drop_first());
                    assert(words_from(s@, pos as int).drop_first() =~= words_from(s@, b as int));
                }
                sp.push((a, b));
                proof {
                    let cur = sp@;
                    assert(cur == old_sp.push((a, b)));
                    assert forall|j: int| #![trigger ws[j]] #![trigger cur[j]] 0 <= j < cur.len() implies cur[j].0 <= cur[j].1
                        <= s@.len() && ws[j] == s@.subrange(cur[j].0 as int, cur[j].1 as int) by {
                        if j < old_sp.len() {
                            assert(cur[j] == old_sp[j]);
                            assert(ws[j] == s@.subrange(old_sp[j].0 as int, old_sp[j].1 as int));
                        } else {
                            assert(cur[j] == (a, b));
                        }
                    }
                    assert(spans_match(s@, ws, cur));
                }
                pos = b;
            },
            None => {
                return None;
            },
        }
    }
    Some(sp)
}

/// Words joined by single spaces, the line ended by a line feed.
pub open spec fn line_text(ws: Seq<Seq<u8>>) -> Seq<u8>
    decreases ws.len(),
{
    if ws.len() == 0 {
        seq![10u8]
    } else if ws.len() == 1 {
        ws[0] + seq![10u8]
    } else {
        ws[0] + seq![32u8] + line_text(ws.drop_first())
    }
}

/// Whether every word is non-empty and holds no whitespace: words that
/// read back as themselves.
pub open spec fn good_words(ws: Seq<Seq<u8>>) -> bool {
    forall|j: int| 0 <= j < ws.len() ==> #[trigger] ws[j].len() >= 1 && spaceless(ws[j])
}

/// The words of a written line are the words it was written from.
pub proof fn lemma_line_words(ws: Seq<Seq<u8>>)
    requires
        good_words(ws),
    ensures
        words(line_text(ws)) == ws,
    decreases ws.len(),
{
    if ws.len() == 0 {
        assert(words(seq![10u8]) == words_from(seq![10u8], 1));
        assert(words(seq![10u8]) =~= Seq::<Seq<u8>>::empty());
    } else if ws.len() == 1 {
        assert(ws[0].len() >= 1 && spaceless(ws[0]));
        lemma_words_last(ws[0], 10);
        assert(ws =~= seq![ws[0]]);
    } else {
        assert(ws[0].len() >= 1 && spaceless(ws[0]));
        assert(good_words(ws.drop_first())) by {
            assert forall|j: int| 0 <= j < ws.drop_first().len() implies #[trigger] ws.drop_first()[j].len() >= 1
                && spaceless(ws.drop_first()[j]) by {
                assert(ws.drop_first()[j] == ws[j + 1]);
            }
        }
        lemma_line_words(ws.drop_first());
        lemma_words_lead(ws[0], 32, line_text(ws.drop_first()));
        assert(ws =~= seq![ws[0]] + ws.drop_first());
    }
}

/// The byte views of a list of words.
pub open spec fn views(ws: Seq<Vec<u8>>) -> Seq<Seq<u8>> {
    ws.map_values(|w: Vec<u8>| w@)
}

/// Append `w`.
pub fn push_bytes(out: &mut Vec<u8>, w: &[u8])
    ensures
        final(out)@ == old(out)@ + w@,
{
    let ghost start = out@;
    let mut k: usize = 0;
    while k < w.len()
        invariant
            k <= w@.len(),
            out@ == start + w@.subrange(0, k as int),
        decreases w@.len() - k,
    {
        out.push(w[k]);
        proof {
            assert(w@.subrange(0, k + 1) =~= w@.subrange(0, k as int).push(w@[k as int]));
        }
        k = k + 1;
    }
    assert(w@.subrange(0, w@.len() as int) =~= w@);
}

/// Append words joined by single spaces, and a line feed.
pub fn write_line(out: &mut Vec<u8>, ws: &[Vec<u8>])
    ensures
        final(out)@ == old(out)@ + line_text(views(ws@)),
{
    let ghost all = views(ws@);
    let ghost start = out@;
    assert(all.skip(0) =~= all);
    let mut k: usize = 0;
    while k < ws.len()
        invariant
            k <= ws@.len(),
            all == views(ws@),
            start + line_text(all) == out@ + line_text(all.skip(k as int)),
        decreases ws@.len() - k,
    {
        let ghost before = out@;
        proof {
            let rest = all.skip(k as int);
            assert(rest.drop_first() =~= all.skip(k + 1));
            assert(rest[0] == ws@[k as int]@);
            if k + 1 == ws@.len() {
                assert(all.skip(k + 1) =~= Seq::<Seq<u8>>::empty());
            }
        }
        push_bytes(out, ws[k].as_slice());
        if k + 1 < ws.len() {
            out.push(32);
            proof {
                assert(out@ =~= before + ws@[k as int]@ + seq![32u8]);
            }
        }
        k = k + 1;
    }
    proof {
        assert(all.skip(ws@.len() as int) =~= Seq::<Seq<u8>>::empty());
    }
    out.push(10);
}

/// The decimal word of `n`.
pub fn dec_word(n: u64) -> (r: Vec<u8>)
    ensures
        r@ == dec_bytes(n as nat),
{
    let mut r: Vec<u8> = Vec::new();
    push_dec(&mut r, n);
    assert(r@ =~= dec_bytes(n as nat));
    r
}

/// The value of hexadecimal digit byte `b`, either case.
pub open spec fn hex_digit(b: u8) -> Option<nat> {
    if 48 <= b && b <= 57 {
        Some((b - 48) as nat)
    } else if 97 <= b && b <= 102 {
        Some((b - 87) as nat)
    } else if 65 <= b && b <= 70 {
        Some((b - 55) as nat)
    } else {
        None
    }
}

/// Whether every byte of `d` is a hexadecimal digit.
pub open spec fn all_hex(d: Seq<u8>) -> bool {
    forall|k: int| 0 <= k < d.len() ==> #[trigger] hex_digit(d[k]) is Some
}

/// The value of a run of hexadecimal digits.
pub open spec fn hex_digits_value(s: Seq<u8>) -> nat
    decreases s.len(),
{
    if s.len() == 0 {
        0
    } else {
        16 * hex_digits_value(s.drop_last()) + hex_digit(s.last())->0
    }
}

/// The number a word names in base sixteen, as an unsigned integer's
/// radix-16 text reads: an optional `+`, then one or more hexadecimal
/// digits of either case.
pub open spec fn hex_value(t: Seq<u8>) -> Option<nat> {
    let d = unsigned_digits(t);
    if d.len() > 0 && all_hex(d) {
        Some(hex_digits_value(d))
    } else {
        None
    }
}

/// The lower-case hexadecimal digit byte for `d < 16`.
pub open spec fn hex_char(d: nat) -> u8 {
    if d < 10 {
        (48 + d) as u8
    } else {
        (87 + d) as u8
    }
}

/// The lower-case hexadecimal digits of `n`, zero-padded to at least
/// `min` digits.
pub open spec fn hex_bytes(n: nat, min: nat) -> Seq<u8>
    decreases n + min,
{
    if n < 16 && min <= 1 {
        seq![hex_char(n)]
    } else {
        hex_bytes(n / 16, if min > 0 {
            (min - 1) as nat
        } else {
            0
        }).push(hex_char(n % 16))
    }
}

/// Hexadecimal digits read back as the number they were written from.
pub proof fn lemma_hex_bytes(n: nat, min: nat)
    ensures
        hex_bytes(n, min).len() >= 1,
        hex_bytes(n, min).len() >= min,
        all_hex(hex_bytes(n, min)),
        spaceless(hex_bytes(n, min)),
        hex_bytes(n, min)[0] != 43,
        hex_digits_value(hex_bytes(n, min)) == n,
        hex_value(hex_bytes(n, min)) == Some(n),
    decreases n + min,
{
    let h = hex_bytes(n, min);
    if n < 16 && min <= 1 {
        assert(h.drop_last() =~= Seq::<u8>::empty());
        assert(hex_digit(hex_char(n)) == Some(n));
        assert(hex_digits_value(Seq::<u8>::empty()) == 0);
        assert(h.last() == hex_char(n));
        assert(hex_digits_value(h) == 16 * hex_digits_value(h.drop_last()) + hex_digit(h.last())->0);
    } else {
        let m = if min > 0 {
            (min - 1) as nat
        } else {
            0
        };
        lemma_hex_bytes(n / 16, m);
        let d = hex_bytes(n / 16, m);
        assert(h.drop_last() =~= d);
        assert(hex_digit(hex_char(n % 16)) == Some(n % 16));
        assert(n == 16 * (n / 16) + n % 16);
        assert forall|k: int| 0 <= k < h.len() implies #[trigger] hex_digit(h[k]) is Some by {
            if k < d.len() {
                assert(h[k] == d[k]);
            }
        }
        assert forall|k: int| 0 <= k < h.len() implies !is_space(#[trigger] h[k]) by {
            if k < d.len() {
                assert(h[k] == d[k]);
            }
        }
        assert(h[0] == d[0]);
        assert(h.last() == hex_char(n % 16));
        assert(hex_digits_value(h) == 16 * hex_digits_value(h.drop_last()) + hex_digit(h.last())->0);
    }
    assert(unsigned_digits(h) == h);
}

/// Append the lower-case hexadecimal digits of `n`, zero-padded to at
/// least `min` digits.
pub fn push_hex(out: &mut Vec<u8>, n: u64, min: u64)
    ensures
        final(out)@ == old(out)@ + hex_bytes(n as nat, min as nat),
    decreases n + min,
{
    if !(n < 16 && min <= 1) {
        let m: u64 = if min > 0 {
            min - 1
        } else {
            0
        };
        push_hex(out, n / 16, m);
    }
    let d = (n % 16) as u8;
    let c: u8 = if d < 10 {
        48 + d
    } else {
        87 + d
    };
    out.push(c);
    proof {
        if n < 16 && min <= 1 {
            assert(n % 16 == n);
        }
    }
    assert(out@ =~= old(out)@ + hex_bytes(n as nat, min as nat));
}

/// The hexadecimal word of `n`, zero-padded to at least `min` digits.
pub fn hex_word(n: u64, min: u64) -> (r: Vec<u8>)
    ensures
        r@ == hex_bytes(n as nat, min as nat),
{
    let mut r: Vec<u8> = Vec::new();
    push_hex(&mut r, n, min);
    assert(r@ =~= hex_bytes(n as nat, min as nat));
    r
}

/// The number hexadecimal word `s[a..b]` names, if it names one that
/// fits a `u64`.
pub fn word_hex_u64(s: &[u8], a: usize, b: usize) -> (r: Option<u64>)
    requires
        a <= b <= s@.len(),
    ensures
        r == match hex_value(s@.subrange(a as int, b as int)) {
            Some(v) => if v <= u64::MAX {
                Some(v as u64)
            } else {
                None::<u64>
            },
            None => None::<u64>,
        },
{
    let ghost t = s@.subrange(a as int, b as int);
    let mut k = a;
    if k < b && s[k] == 43 {
        k = k + 1;
    }
    let ghost d = unsigned_digits(t);
    assert(d =~= s@.subrange(k as int, b as int));
    if k >= b {
        return None;
    }
    let mut value: u64 = 0;
    let mut over = false;
    let mut j = k;
    while j < b
        invariant
            k <= j <= b <= s@.len(),
            t == s@.subrange(a as int, b as int),
            d == unsigned_digits(t),
            d == s@.subrange(k as int, b as int),
            forall|q: int| k <= q < j ==> #[trigger] hex_digit(s@[q]) is Some,
            !over ==> value as nat == hex_digits_value(s@.subrange(k as int, j as int)),
            over ==> hex_digits_value(s@.subrange(k as int, j as int)) > u64::MAX,
        decreases b - j,
    {
        let c = s[j];
        let dv: u64 = if 48 <= c && c <= 57 {
            (c - 48) as u64
        } else if 97 <= c && c <= 102 {
            (c - 87) as u64
        } else if 65 <= c && c <= 70 {
            (c - 55) as u64
        } else {
            proof {
                assert(d[j - k] == c);
                assert(hex_digit(d[j - k]) is None);
                assert(!all_hex(d));
            }
            return None;
        };
        proof {
            let prev = s@.subrange(k as int, j as int);
            let next = s@.subrange(k as int, j + 1);
            assert(next.drop_last() =~= prev);
            assert(next.last() == c);
            assert(hex_digit(c) == Some(dv as nat));
            assert(hex_digits_value(next) == 16 * hex_digits_value(prev) + dv as nat);
        }
        if !over {
            if value > (u64::MAX - dv) / 16 {
                over = true;
                proof {
                    assert(16 * (value as int) + dv > u64::MAX) by (nonlinear_arith)
                        requires
                            value > (u64::MAX - dv) / 16,
                            dv <= 15,
                    ;
                }
            } else {
                proof {
                    assert(16 * (value as int) + dv <= u64::MAX) by (nonlinear_arith)
                        requires
                            value <= (u64::MAX - dv) / 16,
                            dv <= 15,
                    ;
                }
                value = value * 16 + dv;
            }
        } else {
            proof {
                let prev = s@.subrange(k as int, j as int);
                assert(16 * hex_digits_value(prev) + dv > u64::MAX);
            }
        }
        j = j + 1;
    }
    proof {
        assert forall|q: int| 0 <= q < d.len() implies #[trigger] hex_digit(d[q]) is Some by {
            assert(d[q] == s@[k + q]);
        }
    }
    if over {
        None
    } else {
        Some(value)
    }
}

/// Whether `l` holds no line break: no line feed and no carriage return.
pub open spec fn plain(l: Seq<u8>) -> bool {
    forall|k: int| 0 <= k < l.len() ==> #[trigger] l[k] != 10 && l[k] != 13
}

/// Whether `t` is one whole line: plain text ended by a line feed.
pub open spec fn one_line(t: Seq<u8>) -> bool {
    t.len() >= 1 && t.last() == 10 && plain(t.drop_last())
}

/// Where the line starting at `i` ends: the first line feed at or after
/// `i`, or the end.
pub open spec fn line_end(s: Seq<u8>, i: int) -> int
    decreases s.len() - i,
{
    if i < 0 || i >= s.len() || s[i] == 10 {
        i
    } else {
        line_end(s, i + 1)
    }
}

/// A line never ends before it starts, nor past the text.
pub proof fn lemma_line_end_bounds(s: Seq<u8>, i: int)
    ensures
        line_end(s, i) >= i,
        0 <= i <= s.len() ==> line_end(s, i) <= s.len(),
    decreases s.len() - i,
{
    if 0 <= i < s.len() && s[i] != 10 {
        lemma_line_end_bounds(s, i + 1);
    }
}

/// The lines of `s` from index `i` on, as a text's lines read: split at
/// each line feed, a carriage return just before one dropped, the last
/// line feed optional.
pub open spec fn lines_from(s: Seq<u8>, i: int) -> Seq<Seq<u8>>
    decreases s.len() - i,
{
    if i < 0 || i >= s.len() {
        Seq::empty()
    } else {
        proof {
            lemma_line_end_bounds(s, i);
        }
        let e = line_end(s, i);
        let raw = s.subrange(i, e);
        let ln = if e < s.len() && raw.len() > 0 && raw.last() == 13 {
            raw.drop_last()
        } else {
            raw
        };
        if e < s.len() {
            seq![ln] + lines_from(s, e + 1)
        } else {
            seq![ln]
        }
    }
}

/// The lines of `s`.
pub open spec fn lines(s: Seq<u8>) -> Seq<Seq<u8>> {
    lines_from(s, 0)
}

/// A line's end after a prefix is its end in what follows, moved along.
proof fn lemma_line_end_shift(p: Seq<u8>, b: Seq<u8>, j: int)
    requires
        0 <= j <= b.len(),
    ensures
        line_end(p + b, p.len() + j) == p.len() + line_end(b, j),
    decreases b.len() - j,
{
    if j < b.len() {
        assert((p + b)[p.len() + j] == b[j]);
        if b[j] != 10 {
            lemma_line_end_shift(p, b, j + 1);
        }
    }
}

/// Lines after a prefix are the lines of what follows it.
pub proof fn lemma_lines_shift(p: Seq<u8>, b: Seq<u8>, j: int)
    requires
        0 <= j <= b.len(),
    ensures
        lines_from(p + b, p.len() + j) == lines_from(b, j),
    decreases b.len() - j,
{
    if j < b.len() {
        let s = p + b;
        lemma_line_end_shift(p, b, j);
        lemma_line_end_bounds(b, j);
        let e = line_end(b, j);
        if e < b.len() {
            lemma_lines_shift(p, b, e + 1);
        }
        assert(s.subrange(p.len() + j, p.len() + e) =~= b.subrange(j, e));
    }
}

/// A plain line runs to its line feed.
proof fn lemma_line_end_at(t: Seq<u8>, rest: Seq<u8>, i: int)
    requires
        one_line(t),
        0 <= i < t.len(),
    ensures
        line_end(t + rest, i) == t.len() - 1,
    decreases t.len() - i,
{
    let s = t + rest;
    assert(s[i] == t[i]);
    if i < t.len() - 1 {
        assert(t.drop_last()[i] == t[i]);
        lemma_line_end_at(t, rest, i + 1);
    }
}

/// The lines of one whole line and a rest: that line, then the lines of
/// the rest.
pub proof fn lemma_lines_lead(t: Seq<u8>, rest: Seq<u8>)
    requires
        one_line(t),
    ensures
        lines(t + rest) == seq![t.drop_last()] + lines(rest),
{
    let s = t + rest;
    lemma_line_end_at(t, rest, 0);
    let e = t.len() - 1;
    assert(s.subrange(0, e) =~= t.drop_last());
    if e > 0 {
        assert(t.drop_last()[e - 1] != 13);
    }
    lemma_lines_shift(t, rest, 0);
    assert(lines_from(s, e + 1) == lines(rest));
    assert(e < s.len());
}

/// A written line of good words is one whole line.
pub proof fn lemma_line_text_one(ws: Seq<Seq<u8>>)
    requires
        good_words(ws),
    ensures
        one_line(line_text(ws)),
    decreases ws.len(),
{
    if ws.len() == 0 {
        assert(line_text(ws).drop_last() =~= Seq::<u8>::empty());
    } else if ws.len() == 1 {
        assert(ws[0].len() >= 1 && spaceless(ws[0]));
        assert(line_text(ws).drop_last() =~= ws[0]);
    } else {
        assert(ws[0].len() >= 1 && spaceless(ws[0]));
        assert(good_words(ws.drop_first())) by {
            assert forall|j: int| 0 <= j < ws.drop_first().len() implies #[trigger] ws.drop_first()[j].len() >= 1
                && spaceless(ws.drop_first()[j]) by {
                assert(ws.drop_first()[j] == ws[j + 1]);
            }
        }
        lemma_line_text_one(ws.drop_first());
        lemma_word_then_one(ws[0], line_text(ws.drop_first()));
    }
}

/// A word, a space, and one whole line make one whole line.
pub proof fn lemma_word_then_one(w: Seq<u8>, rest: Seq<u8>)
    requires
        spaceless(w),
        one_line(rest),
    ensures
        one_line(w + seq![32u8] + rest),
{
    let t = w + seq![32u8] + rest;
    assert(t.drop_last() =~= w + seq![32u8] + rest.drop_last());
    assert forall|k: int| 0 <= k < t.drop_last().len() implies #[trigger] t.drop_last()[k] != 10 && t.drop_last()[k]
        != 13 by {
        if k < w.len() {
            assert(t.drop_last()[k] == w[k]);
            assert(!is_space(w[k]));
        } else if k > w.len() {
            assert(t.drop_last()[k] == rest.drop_last()[k - w.len() - 1]);
        }
    }
}

/// Where the line starting at `i` ends, and where the next one starts:
/// the lines from `i` are `s[i..end]`, then the lines from `next`.
pub fn next_line(s: &[u8], i: usize) -> (r: Option<(usize, usize)>)
    requires
        i <= s@.len(),
    ensures
        match r {
            Some((end, next)) => i <= end <= next <= s@.len() && i < next && lines_from(s@, i as int) == seq![
                s@.subrange(i as int, end as int),
            ] + lines_from(s@, next as int),
            None => i >= s@.len() && lines_from(s@, i as int) == Seq::<Seq<u8>>::empty(),
        },
{
    if i >= s.len() {
        return None;
    }
    let mut e = i;
    while e < s.len() && s[e] != 10
        invariant
            i <= e <= s@.len(),
            line_end(s@, i as int) == line_end(s@, e as int),
        decreases s@.len() - e,
    {
        e = e + 1;
    }
    proof {
        lemma_line_end_bounds(s@, i as int);
    }
    let ghost raw = s@.subrange(i as int, e as int);
    if e < s.len() && e > i && s[e - 1] == 13 {
        assert(raw.drop_last() =~= s@.subrange(i as int, (e - 1) as int));
        Some((e - 1, e + 1))
    } else if e < s.len() {
        Some((e, e + 1))
    } else {
        assert(lines_from(s@, e as int) =~= Seq::<Seq<u8>>::empty());
        Some((e, e))
    }
}

/// A word's end is the same with a separator appended.
proof fn lemma_word_end_push(s: Seq<u8>, sep: u8, i: int)
    requires
        is_space(sep),
        0 <= i <= s.len(),
    ensures
        word_end(s.push(sep), i) == word_end(s, i),
    decreases s.len() - i,
{
    if i < s.len() {
        assert(s.push(sep)[i] == s[i]);
        if !is_space(s[i]) {
            lemma_word_end_push(s, sep, i + 1);
        }
    } else {
        assert(s.push(sep)[i] == sep);
    }
}

/// A trailing separator adds no word.
pub proof fn lemma_words_push_space(s: Seq<u8>, sep: u8, i: int)
    requires
        is_space(sep),
        0 <= i <= s.len(),
    ensures
        words_from(s.push(sep), i) == words_from(s, i),
    decreases s.len() - i,
{
    let t = s.push(sep);
    if i == s.len() {
        assert(t[i] == sep);
        assert(words_from(t, i) == words_from(t, i + 1));
    } else {
        assert(t[i] == s[i]);
        if is_space(s[i]) {
            lemma_words_push_space(s, sep, i + 1);
        } else {
            lemma_word_end_push(s, sep, i);
            lemma_word_end_bounds(s, i);
            lemma_words_push_space(s, sep, word_end(s, i));
            assert(t.subrange(i, word_end(s, i)) =~= s.subrange(i, word_end(s, i)));
        }
    }
}

/// The words of a whole line are the words of its text without the
/// line feed.
pub proof fn lemma_words_of_line(t: Seq<u8>)
    requires
        one_line(t),
    ensures
        words(t.drop_last()) == words(t),
{
    lemma_words_push_space(t.drop_last(), 10, 0);
    assert(t.drop_last().push(10) =~= t);
}

/// Texts one after another.
pub open spec fn concat(ts: Seq<Seq<u8>>) -> Seq<u8>
    decreases ts.len(),
{
    if ts.len() == 0 {
        Seq::empty()
    } else {
        ts[0] + concat(ts.drop_first())
    }
}

/// Two runs of texts, one after the other.
pub proof fn lemma_concat_append(a: Seq<Seq<u8>>, b: Seq<Seq<u8>>)
    ensures
        concat(a + b) == concat(a) + concat(b),
    decreases a.len(),
{
    if a.len() == 0 {
        assert(a + b =~= b);
        assert(Seq::<u8>::empty() + concat(b) =~= concat(b));
    } else {
        assert((a + b).drop_first() =~= a.drop_first() + b);
        assert((a + b)[0] == a[0]);
        lemma_concat_append(a.drop_first(), b);
        assert(a[0] + (concat(a.drop_first()) + concat(b)) =~= (a[0] + concat(a.drop_first())) + concat(b));
    }
}

/// One more text at the end.
pub proof fn lemma_concat_push(ts: Seq<Seq<u8>>, t: Seq<u8>)
    ensures
        concat(ts.push(t)) == concat(ts) + t,
{
    lemma_concat_append(ts, seq![t]);
    assert(ts + seq![t] =~= ts.push(t));
    assert(seq![t].drop_first() =~= Seq::<Seq<u8>>::empty());
    assert(concat(seq![t]) == t + concat(Seq::<Seq<u8>>::empty()));
    assert(t + Seq::<u8>::empty() =~= t);
}

/// The lines of whole lines one after another are those lines.
pub proof fn lemma_lines_concat(ts: Seq<Seq<u8>>)
    requires
        forall|j: int| 0 <= j < ts.len() ==> one_line(#[trigger] ts[j]),
    ensures
        lines(concat(ts)) == ts.map_values(|t: Seq<u8>| t.drop_last()),
    decreases ts.len(),
{
    if ts.len() == 0 {
        assert(lines(Seq::<u8>::empty()) =~= Seq::<Seq<u8>>::empty());
        assert(ts.map_values(|t: Seq<u8>| t.drop_last()) =~= Seq::<Seq<u8>>::empty());
    } else {
        assert(one_line(ts[0]));
        assert forall|j: int| 0 <= j < ts.drop_first().len() implies one_line(#[trigger] ts.drop_first()[j]) by {
            assert(ts.drop_first()[j] == ts[j + 1]);
        }
        lemma_lines_concat(ts.drop_first());
        lemma_lines_lead(ts[0], concat(ts.drop_first()));
        assert(ts.map_values(|t: Seq<u8>| t.drop_last()) =~= seq![ts[0].drop_last()] + ts.drop_first().map_values(
            |t: Seq<u8>| t.drop_last(),
        ));
    }
}

} // verus!
