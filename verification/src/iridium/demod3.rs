//! Framing of demodulated Iridium simplex bursts.
//!
//! A burst arrives as a stream of differential symbols: a preamble of zeros, the
//! unique word, then the payload. A frame starts where the unique word and the
//! preamble before it fit best, and a unique word with a few bit errors is still
//! accepted.
use crate::pick::{beyond, is_beyond};
use crate::text::push_char;
use vstd::prelude::*;

verus! {

pub const SPS: usize = 8;

pub const NSYM_BURST: usize = 508;

pub const PREAMBLE: usize = 64;

pub const UW_SYMS: [u8; 12] = [0, 2, 0, 0, 0, 2, 0, 0, 2, 2, 0, 2];

/// symbol (0 to 3, Gray coded) to two bits, most significant first
pub const SYM2BITS: [[u8; 2]; 4] = [[0, 0], [0, 1], [1, 1], [1, 0]];

/// Bit `k` of a symbol.
pub open spec fn symbol_bit(s: u8, k: int) -> u8 {
    SYM2BITS@[s as int]@[k]
}

/// Number of bits, 0 to 2, in which two symbols differ.
pub open spec fn symbol_errors(a: u8, b: u8) -> int {
    (if symbol_bit(a, 0) != symbol_bit(b, 0) { 1int } else { 0 }) + (if symbol_bit(a, 1) != symbol_bit(b, 1) {
        1int
    } else {
        0
    })
}

/// Bit errors of the first `n` symbols of a unique word expected at `p`.
pub open spec fn unique_word_errors(ds: Seq<u8>, p: int, n: int) -> int
    decreases n,
{
    if n <= 0 {
        0
    } else {
        unique_word_errors(ds, p, n - 1) + symbol_errors(ds[p + n - 1], UW_SYMS@[n - 1])
    }
}

/// Set bits among the symbols from `from` up to `to`.
pub open spec fn set_bits(ds: Seq<u8>, from: int, to: int) -> int
    decreases to - from,
{
    if to <= from {
        0
    } else {
        set_bits(ds, from, to - 1) + symbol_bit(ds[to - 1], 0) + symbol_bit(ds[to - 1], 1)
    }
}

pub open spec fn floor_sub(a: int, b: int) -> int {
    if a < b {
        0
    } else {
        a - b
    }
}

/// Misfit of a frame that starts at `p`: bit errors of the unique word, and set
/// bits in the last `prewin` symbols of the preamble.
pub open spec fn frame_score(ds: Seq<u8>, p: int, prewin: int) -> int {
    unique_word_errors(ds, p, 12) + set_bits(ds, floor_sub(p, prewin), p)
}

/// Last start that is tried: `win` after the hint, or where the unique word
/// still fits.
pub open spec fn last_start(len: int, hint: int, win: int) -> int {
    if hint + win < len - 12 {
        hint + win
    } else {
        len - 12
    }
}

/// Whether `p` is the first of the best starts between `lo` and `hi`.
pub open spec fn best_start(ds: Seq<u8>, lo: int, hi: int, prewin: int, p: int) -> bool {
    &&& lo <= p <= hi
    &&& forall|q: int|
        lo <= q <= hi ==> #[trigger] frame_score(ds, q, prewin) >= frame_score(ds, p, prewin) && (q < p
            ==> frame_score(ds, q, prewin) > frame_score(ds, p, prewin))
}

/// Whether the unique word stands at `i`, free of errors.
pub open spec fn unique_word_at(ds: Seq<u8>, i: int) -> bool {
    0 <= i && i + 12 <= ds.len() && ds.subrange(i, i + 12) == UW_SYMS@
}

pub open spec fn symbols_valid(ds: Seq<u8>) -> bool {
    forall|i: int| 0 <= i < ds.len() ==> #[trigger] ds[i] < 4
}

proof fn lemma_symbol_bits(s: u8)
    requires
        s < 4,
    ensures
        symbol_bit(s, 0) == (if s >= 2 { 1u8 } else { 0u8 }),
        symbol_bit(s, 1) == (if s == 1 || s == 2 { 1u8 } else { 0u8 }),
{
    assert(SYM2BITS@[0]@[0] == 0 && SYM2BITS@[0]@[1] == 0);
    assert(SYM2BITS@[1]@[0] == 0 && SYM2BITS@[1]@[1] == 1);
    assert(SYM2BITS@[2]@[0] == 1 && SYM2BITS@[2]@[1] == 1);
    assert(SYM2BITS@[3]@[0] == 1 && SYM2BITS@[3]@[1] == 0);
}

/// Two symbols of the constellation that are neighbours in phase differ in one
/// bit, and opposite ones in two.
pub proof fn law_symbols_are_gray_coded(s: u8)
    requires
        s < 4,
    ensures
        symbol_errors(s, ((s + 1) % 4) as u8) == 1,
        symbol_errors(s, ((s + 2) % 4) as u8) == 2,
        symbol_errors(s, s) == 0,
{
    lemma_symbol_bits(s);
    lemma_symbol_bits(((s + 1) % 4) as u8);
    lemma_symbol_bits(((s + 2) % 4) as u8);
}

proof fn lemma_exact_word(ds: Seq<u8>, p: int, n: int)
    requires
        unique_word_at(ds, p),
        0 <= n <= 12,
    ensures
        unique_word_errors(ds, p, n) == 0,
    decreases n,
{
    if n > 0 {
        lemma_exact_word(ds, p, n - 1);
        assert(ds.subrange(p, p + 12)[n - 1] == ds[p + n - 1]);
    }
}

/// An exact unique word after a clean preamble has a perfect score.
pub proof fn law_exact_frames_score_zero(ds: Seq<u8>, p: int, prewin: int)
    requires
        unique_word_at(ds, p),
        prewin >= 0,
        forall|i: int| floor_sub(p, prewin) <= i < p ==> #[trigger] ds[i] == 0,
    ensures
        frame_score(ds, p, prewin) == 0,
{
    lemma_exact_word(ds, p, 12);
    lemma_zero_preamble(ds, floor_sub(p, prewin), p);
}

proof fn lemma_zero_preamble(ds: Seq<u8>, from: int, to: int)
    requires
        0 <= from,
        forall|i: int| from <= i < to ==> #[trigger] ds[i] == 0,
    ensures
        set_bits(ds, from, to) == 0,
    decreases to - from,
{
    lemma_symbol_bits(0);
    if from < to {
        lemma_zero_preamble(ds, from, to - 1);
        assert(ds[to - 1] == 0);
    }
}

fn errors_at(ds: &[u8], p: usize) -> (d: usize)
    requires
        symbols_valid(ds@),
        p + 12 <= ds@.len(),
    ensures
        d == unique_word_errors(ds@, p as int, 12),
        d <= 24,
{
    let mut d: usize = 0;
    let mut i: usize = 0;
    let n: usize = ds.len();
    while i < 12
        invariant
            i <= 12,
            n == ds@.len(),
            symbols_valid(ds@),
            p + 12 <= ds@.len(),
            d == unique_word_errors(ds@, p as int, i as int),
            d <= 2 * i,
        decreases 12 - i,
    {
        let s: usize = ds[p + i] as usize;
        let w: usize = UW_SYMS[i] as usize;
        proof {
            assert(UW_SYMS@[i as int] < 4);
        }
        if SYM2BITS[s][0] != SYM2BITS[w][0] {
            d += 1;
        }
        if SYM2BITS[s][1] != SYM2BITS[w][1] {
            d += 1;
        }
        i += 1;
    }
    d
}

fn bits_between(ds: &[u8], from: usize, to: usize) -> (n: usize)
    requires
        symbols_valid(ds@),
        from <= to <= ds@.len(),
        2 * ds@.len() + 24 <= usize::MAX,
    ensures
        n == set_bits(ds@, from as int, to as int),
        n <= 2 * (to - from),
{
    let mut n: usize = 0;
    let mut i: usize = from;
    while i < to
        invariant
            symbols_valid(ds@),
            from <= i <= to <= ds@.len(),
            2 * ds@.len() + 24 <= usize::MAX,
            n == set_bits(ds@, from as int, i as int),
            n <= 2 * (i - from),
        decreases to - i,
    {
        let s: usize = ds[i] as usize;
        proof {
            lemma_symbol_bits(ds@[i as int]);
        }
        n = n + SYM2BITS[s][0] as usize + SYM2BITS[s][1] as usize;
        i += 1;
    }
    n
}

/// Symbol 0 is sent for the bits 00, 1 for 01, 2 for 11 and 3 for 10.
pub proof fn law_bits_of_a_symbol(ds: Seq<u8>, p: int, i: int)
    requires
        symbols_valid(ds),
        0 <= p,
        0 <= i < ds.len() - p,
    ensures
        frame_bits(ds, p).len() == 2 * (ds.len() - p),
        frame_bits(ds, p)[2 * i] == (if ds[p + i] == 2 || ds[p + i] == 3 {
            '1'
        } else {
            '0'
        }),
        frame_bits(ds, p)[2 * i + 1] == (if ds[p + i] == 1 || ds[p + i] == 2 {
            '1'
        } else {
            '0'
        }),
{
    assert(ds[p + i] < 4);
    assert((2 * i) / 2 == i && (2 * i) % 2 == 0);
    assert((2 * i + 1) / 2 == i && (2 * i + 1) % 2 == 1);
}

/// A frame starts with the bits 001100000011000011110011.
pub proof fn law_bits_of_the_unique_word(ds: Seq<u8>, p: int)
    requires
        symbols_valid(ds),
        unique_word_at(ds, p),
    ensures
        frame_bits(ds, p).take(24) == "001100000011000011110011"@,
{
    reveal_strlit("001100000011000011110011");
    assert forall|i: int| 0 <= i < 12 implies ds[p + i] == #[trigger] UW_SYMS@[i] by {
        assert(ds.subrange(p, p + 12)[i] == ds[p + i]);
    }
    law_bits_of_a_symbol(ds, p, 0);
    law_bits_of_a_symbol(ds, p, 1);
    law_bits_of_a_symbol(ds, p, 2);
    law_bits_of_a_symbol(ds, p, 3);
    law_bits_of_a_symbol(ds, p, 4);
    law_bits_of_a_symbol(ds, p, 5);
    law_bits_of_a_symbol(ds, p, 6);
    law_bits_of_a_symbol(ds, p, 7);
    law_bits_of_a_symbol(ds, p, 8);
    law_bits_of_a_symbol(ds, p, 9);
    law_bits_of_a_symbol(ds, p, 10);
    law_bits_of_a_symbol(ds, p, 11);
    let w = [0u8, 2, 0, 0, 0, 2, 0, 0, 2, 2, 0, 2];
    assert(UW_SYMS@ =~= w@);
    assert(frame_bits(ds, p).take(24) =~= "001100000011000011110011"@);
}

/// Each symbol is the one before it turned on by the step between them.
pub proof fn law_steps_turn_on(k: Seq<u8>, i: int)
    requires
        symbols_valid(k),
        0 <= i < k.len() - 1,
    ensures
        steps(k).len() == k.len() - 1,
        steps(k)[i] < 4,
        k[i + 1] == (k[i] + steps(k)[i]) % 4,
{
    assert(k[i] < 4 && k[i + 1] < 4);
}

/// Away from the ends of what was sampled the window is of 516 symbols, of which the burst is
/// the fifth to the last but four, and the unique word is due at the 66th step.
pub proof fn law_window_of_a_burst(start: int, sampled: int)
    requires
        5 <= start,
        start + 511 <= sampled <= usize::MAX,
    ensures
        window_of(start, sampled) == Some(
            SymbolWindow { from: (start - 5) as usize, to: (start + 511) as usize, hint: 66 },
        ),
{
}

/// Locates the frame start near `hint` by correlating the preamble and the
/// unique word. Returns the start, the bit errors of the unique word and the
/// misfit; there is none when the best start has more than `maxd` bit errors.
pub fn find_frame(ds: &[u8], hint: usize, win: usize, prewin: usize, maxd: usize) -> (r: Option<
    (usize, usize, usize),
>)
    requires
        symbols_valid(ds@),
        hint + win <= usize::MAX,
        2 * ds@.len() + 24 <= usize::MAX,
    ensures
        ds@.len() < 12 || floor_sub(hint as int, win as int) > ds@.len() - 12 ==> r is None,
        ds@.len() >= 12 && floor_sub(hint as int, win as int) <= ds@.len() - 12 ==> exists|p: int|
            #![trigger unique_word_errors(ds@, p, 12)]
            best_start(
                ds@,
                floor_sub(hint as int, win as int),
                last_start(ds@.len() as int, hint as int, win as int),
                prewin as int,
                p,
            ) && (unique_word_errors(ds@, p, 12) > maxd ==> r is None) && (unique_word_errors(ds@, p, 12) <= maxd
                ==> r == Some(
                (
                    p as usize,
                    unique_word_errors(ds@, p, 12) as usize,
                    frame_score(ds@, p, prewin as int) as usize,
                ),
            )),
{
    if ds.len() < 12 {
        return None;
    }
    let n: usize = ds.len() - 12;
    let lo: usize = if hint < win { 0 } else { hint - win };
    let hi: usize = if hint + win < n { hint + win } else { n };
    if hi < lo {
        return None;
    }
    let mut best_p: usize = lo;
    let mut best_d: usize = errors_at(ds, lo);
    let mut best_sc: usize = best_d + bits_between(ds, if lo < prewin { 0 } else { lo - prewin }, lo);
    let mut p: usize = lo;
    while p < hi
        invariant
            symbols_valid(ds@),
            2 * ds@.len() + 24 <= usize::MAX,
            n + 12 == ds@.len(),
            lo <= p <= hi <= n,
            best_d == unique_word_errors(ds@, best_p as int, 12),
            best_sc == frame_score(ds@, best_p as int, prewin as int),
            best_start(ds@, lo as int, p as int, prewin as int, best_p as int),
        decreases hi - p,
    {
        p += 1;
        let d: usize = errors_at(ds, p);
        let sc: usize = d + bits_between(ds, if p < prewin { 0 } else { p - prewin }, p);
        if sc < best_sc {
            best_p = p;
            best_d = d;
            best_sc = sc;
        }
    }
    assert(best_start(ds@, lo as int, hi as int, prewin as int, best_p as int));
    if best_d > maxd {
        return None;
    }
    Some((best_p, best_d, best_sc))
}

/// Position of the unique word in a differential symbol stream, if present.
pub fn find_uw(ds: &[u8]) -> (r: Option<usize>)
    ensures
        r is None <==> forall|i: int| !#[trigger] unique_word_at(ds@, i),
        r matches Some(i) ==> unique_word_at(ds@, i as int) && forall|k: int|
            0 <= k < i ==> !#[trigger] unique_word_at(ds@, k),
{
    let len: usize = ds.len();
    if len < 12 {
        return None;
    }
    let n: usize = len - 12;
    let mut i: usize = 0;
    while i <= n
        invariant
            len == ds@.len(),
            n + 12 == len,
            i <= n + 1,
            forall|k: int| 0 <= k < i ==> !#[trigger] unique_word_at(ds@, k),
        decreases n + 1 - i,
    {
        let mut same: bool = true;
        let mut k: usize = 0;
        while k < 12
            invariant
                len == ds@.len(),
                n + 12 == len,
                i <= n,
                k <= 12,
                same == (forall|j: int| 0 <= j < k ==> ds@[i + j] == #[trigger] UW_SYMS@[j]),
            decreases 12 - k,
        {
            if ds[i + k] != UW_SYMS[k] {
                same = false;
                assert(ds@[i + k] != UW_SYMS@[k as int]);
            }
            k += 1;
        }
        if same {
            assert(ds@.subrange(i as int, i + 12) =~= UW_SYMS@);
            assert(unique_word_at(ds@, i as int));
            return Some(i);
        }
        proof {
            let j = choose|j: int| 0 <= j < 12 && ds@[i + j] != #[trigger] UW_SYMS@[j];
            if unique_word_at(ds@, i as int) {
                assert(ds@.subrange(i as int, i + 12)[j] == ds@[i + j]);
            }
        }
        i += 1;
    }
    None
}

/// The bits of a frame that starts at symbol `p`.
pub open spec fn frame_bits(ds: Seq<u8>, p: int) -> Seq<char> {
    Seq::new(
        (2 * (ds.len() - p)) as nat,
        |i: int| if symbol_bit(ds[p + i / 2], i % 2) == 1 { '1' } else { '0' },
    )
}

/// Bit string of a frame that starts at symbol `p`, unless it has fewer than
/// 120 bits.
pub fn frame_bit_string(ds: &[u8], p: usize) -> (r: Option<String>)
    requires
        symbols_valid(ds@),
        p <= ds@.len(),
    ensures
        r is Some <==> ds@.len() - p >= 60,
        r matches Some(s) ==> s@ == frame_bits(ds@, p as int),
{
    let n: usize = ds.len();
    if n - p < 60 {
        return None;
    }
    let ghost all = frame_bits(ds@, p as int);
    let mut s: String = String::new();
    let mut i: usize = p;
    while i < n
        invariant
            symbols_valid(ds@),
            n == ds@.len(),
            p <= i <= n,
            all == frame_bits(ds@, p as int),
            s@ == all.take(2 * (i - p)),
        decreases n - i,
    {
        let sym: usize = ds[i] as usize;
        let ghost k = 2 * (i - p);
        proof {
            lemma_symbol_bits(ds@[i as int]);
            assert(all[k] == (if symbol_bit(ds@[i as int], 0) == 1 { '1' } else { '0' }));
            assert(all[k + 1] == (if symbol_bit(ds@[i as int], 1) == 1 { '1' } else { '0' }));
        }
        push_char(&mut s, if SYM2BITS[sym][0] == 1 { '1' } else { '0' });
        push_char(&mut s, if SYM2BITS[sym][1] == 1 { '1' } else { '0' });
        assert(all.take(k + 2) =~= all.take(k).push(all[k]).push(all[k + 1]));
        i += 1;
    }
    assert(all.take(all.len() as int) =~= all);
    Some(s)
}

pub open spec fn divides(d: int, n: int) -> bool {
    exists|k: int| n == #[trigger] (d * k)
}

/// Whether `g` is the greatest common divisor of `a` and `b`: a common divisor
/// that every common divisor divides.
pub open spec fn is_gcd(g: int, a: int, b: int) -> bool {
    &&& divides(g, a)
    &&& divides(g, b)
    &&& forall|d: int| #[trigger] divides(d, a) && divides(d, b) ==> divides(d, g)
}

proof fn lemma_divides_combination(d: int, x: int, y: int, q: int)
    requires
        divides(d, x),
        divides(d, y),
    ensures
        divides(d, x + y * q),
        divides(d, x - y * q),
{
    let k = choose|k: int| x == #[trigger] (d * k);
    let l = choose|l: int| y == #[trigger] (d * l);
    assert(x + y * q == d * (k + l * q)) by (nonlinear_arith)
        requires
            x == d * k,
            y == d * l,
    ;
    assert(x - y * q == d * (k - l * q)) by (nonlinear_arith)
        requires
            x == d * k,
            y == d * l,
    ;
}

/// Greatest common divisor.
pub fn gcd(a: usize, b: usize) -> (g: usize)
    ensures
        is_gcd(g as int, a as int, b as int),
    decreases b,
{
    if b == 0 {
        proof {
            assert(a as int == (a as int) * 1);
            assert(0 == (a as int) * 0);
        }
        a
    } else {
        let g: usize = gcd(b, a % b);
        proof {
            let (x, y) = (a as int, b as int);
            let (q, m) = (x / y, x % y);
            assert(x == m + y * q) by {
                vstd::arithmetic::div_mod::lemma_fundamental_div_mod(x, y);
            }
            lemma_divides_combination(g as int, m, y, q);
            assert forall|d: int| #[trigger] divides(d, x) && divides(d, y) implies divides(d, g as int) by {
                lemma_divides_combination(d, x, y, q);
                assert(divides(d, m));
                assert(divides(d, y));
            }
        }
        g
    }
}

/// Steps between successive symbols, in quarter turns.
pub open spec fn steps(k: Seq<u8>) -> Seq<u8> {
    Seq::new(if k.len() > 0 { (k.len() - 1) as nat } else { 0 }, |i: int| ((k[i + 1] + 4 - k[i]) % 4) as u8)
}

/// Steps between successive symbols, in quarter turns.
pub fn differential(k: &[u8]) -> (ds: Vec<u8>)
    requires
        symbols_valid(k@),
    ensures
        ds@ == steps(k@),
        symbols_valid(ds@),
{
    let n: usize = k.len();
    let mut ds: Vec<u8> = Vec::new();
    let mut i: usize = 1;
    while i < n
        invariant
            n == k@.len(),
            1 <= i,
            n > 0 ==> i <= n,
            n == 0 ==> i == 1,
            symbols_valid(k@),
            ds@ == steps(k@).take(i - 1),
            symbols_valid(ds@),
        decreases n - i,
    {
        assert(k@[i as int] < 4 && k@[i - 1] < 4);
        ds.push((k[i] + 4 - k[i - 1]) % 4);
        i += 1;
        assert(ds@ =~= steps(k@).take(i - 1));
    }
    assert(ds@ =~= steps(k@));
    ds
}

/// Differential steps do not depend on the phase of the carrier.
pub proof fn law_steps_ignore_rotation(k: Seq<u8>, turn: int)
    requires
        symbols_valid(k),
        0 <= turn < 4,
    ensures
        steps(Seq::new(k.len(), |i: int| ((k[i] + turn) % 4) as u8)) == steps(k),
{
    let r = Seq::new(k.len(), |i: int| ((k[i] + turn) % 4) as u8);
    assert forall|i: int| 0 <= i < steps(k).len() implies steps(r)[i] == steps(k)[i] by {
        assert(k[i] < 4 && k[i + 1] < 4);
    }
    assert(steps(r) =~= steps(k));
}

/// Percentage of symbols that are clear, rounded down; zero without symbols.
pub fn confidence(clear: usize, total: usize) -> (c: u32)
    requires
        clear <= total,
        100 * total <= usize::MAX,
    ensures
        total == 0 ==> c == 0,
        total > 0 ==> c == (100 * clear) / (total as int),
        c <= 100,
{
    if total == 0 {
        0
    } else {
        let c: usize = (100 * clear) / total;
        assert(c <= 100) by (nonlinear_arith)
            requires
                c == (100 * clear) / (total as int),
                clear <= total,
                total > 0,
        ;
        c as u32
    }
}

/// How many of the first `n` levels exceed the threshold; all are doubles.
pub open spec fn count_above(level: Seq<u64>, threshold: u64, n: int) -> int
    decreases n,
{
    if n <= 0 {
        0
    } else {
        count_above(level, threshold, n - 1) + (if beyond(level[n - 1], threshold) { 1int } else { 0int })
    }
}

/// Where a burst begins and ends: the first and the last sample whose level exceeds
/// the threshold, if at least `least` of them do.
pub fn edges(level: &[u64], threshold: u64, least: usize) -> (r: Option<(usize, usize)>)
    requires
        least > 0,
    ensures
        r is None <==> count_above(level@, threshold, level@.len() as int) < least,
        r matches Some((a, b)) ==> a <= b < level@.len() && beyond(level@[a as int], threshold) && beyond(
            level@[b as int],
            threshold,
        ) && (forall|i: int|
            0 <= i < level@.len() && #[trigger] beyond(level@[i], threshold) ==> a <= i <= b),
{
    let n: usize = level.len();
    let mut count: usize = 0;
    let mut a: usize = 0;
    let mut b: usize = 0;
    let mut i: usize = 0;
    while i < n
        invariant
            n == level@.len(),
            count <= i <= n,
            count == count_above(level@, threshold, i as int),
            count > 0 ==> a <= b < i && beyond(level@[a as int], threshold) && beyond(
                level@[b as int],
                threshold,
            ),
            forall|j: int|
                0 <= j < i && #[trigger] beyond(level@[j], threshold) ==> count > 0 && a <= j <= b,
        decreases n - i,
    {
        if is_beyond(level[i], threshold) {
            if count == 0 {
                a = i;
            }
            b = i;
            count += 1;
        }
        i += 1;
    }
    if count < least {
        None
    } else {
        Some((a, b))
    }
}

/// Symbols by which a burst is widened at either end.
pub const MARGIN: usize = 4;

/// The symbols of a burst.
#[derive(Debug, Clone, Copy, PartialEq, Eq, Structural)]
pub struct SymbolWindow {
    pub from: usize,
    pub to: usize,
    /// where the unique word should begin, counted in differential symbols from the
    /// start of the window
    pub hint: usize,
}

/// The symbols of a burst whose preamble starts with symbol `start` of the symbol
/// clock, given how many symbols were sampled; the first sampled symbol is number
/// one of the clock. There is no window where the samples end before it.
pub open spec fn window_of(start: int, sampled: int) -> Option<SymbolWindow> {
    let from = if start < 1 + MARGIN {
        0
    } else {
        start - 1 - MARGIN
    };
    let full = start - 1 + NSYM_BURST + MARGIN;
    let to = if full < sampled {
        full
    } else {
        sampled
    };
    if to <= from {
        None
    } else {
        Some(
            SymbolWindow {
                from: from as usize,
                to: to as usize,
                hint: (start - 1 - from + PREAMBLE - 2) as usize,
            },
        )
    }
}

/// The symbols of a burst.
pub fn symbol_window(start: usize, sampled: usize) -> (r: Option<SymbolWindow>)
    requires
        start + NSYM_BURST + MARGIN <= usize::MAX,
    ensures
        r == window_of(start as int, sampled as int),
{
    let from: usize = if start < 1 + MARGIN {
        0
    } else {
        start - 1 - MARGIN
    };
    let full: usize = start + NSYM_BURST + MARGIN - 1;
    let to: usize = if full < sampled {
        full
    } else {
        sampled
    };
    if to <= from {
        None
    } else {
        Some(SymbolWindow { from, to, hint: start + PREAMBLE - 3 - from })
    }
}

/// A window lies within the sampled symbols, and where these are enough it holds
/// the whole burst with its margins and expects the unique word at a fixed place.
pub proof fn law_windows_hold_the_burst(start: int, sampled: int)
    requires
        start >= 0,
        0 <= sampled <= usize::MAX,
        start + NSYM_BURST + MARGIN <= usize::MAX,
    ensures
        window_of(start, sampled) matches Some(w) ==> w.from < w.to <= sampled,
        start > MARGIN && sampled >= start - 1 + NSYM_BURST + MARGIN ==> (window_of(start, sampled) matches Some(
            w,
        ) && w.to - w.from == NSYM_BURST + 2 * MARGIN && w.hint == MARGIN + PREAMBLE - 2),
{
}

} // verus!
