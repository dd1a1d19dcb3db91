//! BCH error correction for Iridium frames.
//!
//! Iridium carries its payload in 32-bit blocks: 31 bits of a BCH code followed
//! by one parity bit. Several generator polynomials are in use, one for each
//! message class, and the class is partly told by which of them divides the
//! block cleanly.
//!
//! Everything here is arithmetic in GF(2), where addition is exclusive or. The
//! syndrome is the remainder of the received block divided by the generator. A
//! zero remainder means that no error was detected; any other remainder is
//! looked up in a table that maps it back to the bit pattern that produces it.
use std::collections::HashMap;
use vstd::prelude::*;
use vstd::string::*;
use crate::text::{byte_len, push_char};

verus! {

/// Generator polynomials, as integers whose bits are the coefficients.
pub const MESSAGING: u32 = 1897;

pub const RINGALERT: u32 = 1207;

pub const ACCH: u32 = 3545;

pub const HDR: u32 = 29;

pub const LCW3: u32 = 41;

/// Degree of a nonzero polynomial: the position of its leading coefficient.
pub open spec fn degree(poly: u32) -> u32
    decreases poly,
{
    if poly <= 1 {
        0
    } else {
        (1 + degree(poly / 2)) as u32
    }
}

/// Adds `m` to `t` when coefficient `k` of `t` is set.
pub open spec fn clear_bit(t: u32, m: u32, k: u32) -> u32 {
    if (t >> k) & 1 == 1 {
        t ^ m
    } else {
        t
    }
}

/// Long division by a polynomial of degree `d`: cancels the coefficients of `t`
/// from position `k - 1` down to position `lo`.
pub open spec fn cancel(poly: u32, d: u32, t: u32, k: u32, lo: u32) -> u32
    decreases k,
{
    if k <= lo {
        t
    } else {
        cancel(poly, d, clear_bit(t, poly << ((k - 1 - d) as u32), (k - 1) as u32), (k - 1) as u32, lo)
    }
}

/// Remainder of `num` divided by `poly` over GF(2).
pub open spec fn gf2_rem(poly: u32, num: u32) -> u32 {
    if poly == 0 {
        num
    } else {
        cancel(poly, degree(poly), num, 32, degree(poly))
    }
}

/// Product over GF(2) of `a` and the `n` lowest coefficients of `b`.
pub open spec fn gf2_product(a: u32, b: u32, n: u32) -> u32
    decreases n,
{
    if n == 0 {
        0
    } else {
        let rest = gf2_product(a, b, (n - 1) as u32);
        if (b >> ((n - 1) as u32)) & 1 == 1 {
            rest ^ (a << ((n - 1) as u32))
        } else {
            rest
        }
    }
}

/// A binary digit as a number; every character but `1` counts as zero.
pub open spec fn bit_of(c: char) -> u32 {
    if c == '1' {
        1
    } else {
        0
    }
}

/// The last 32 characters of a bit string as a word, most significant first.
pub open spec fn bit_word(s: Seq<char>) -> u32
    decreases s.len(),
{
    if s.len() == 0 {
        0
    } else {
        (bit_word(s.drop_last()) << 1) | bit_of(s.last())
    }
}

/// The 31 low bits of a word as characters, most significant first.
pub open spec fn word_bits(w: u32) -> Seq<char> {
    Seq::new(31, |i: int| if (w >> ((30 - i) as u32)) & 1 == 1 { '1' } else { '0' })
}

/// Code length and number of correctable errors of each generator.
pub open spec fn code_params(poly: u32) -> (usize, u8) {
    if poly == HDR {
        (7, 1)
    } else if poly == LCW3 {
        (26, 1)
    } else if poly == 465 {
        (14, 2)
    } else {
        (31, 2)
    }
}

/// Whether `e` is an error pattern of the given weight that the code of `poly`
/// sets out to correct.
pub open spec fn error_pattern(poly: u32, weight: u8, e: u32) -> bool {
    ||| weight == 1 && exists|a: u32| a < code_params(poly).0 && e == 1u32 << a
    ||| weight == 2 && code_params(poly).1 >= 2 && exists|a: u32, b: u32|
        a < b && b < code_params(poly).0 && e == (1u32 << a) | (1u32 << b)
}

/// No two correctable patterns share a syndrome.
pub open spec fn distinguishes(poly: u32) -> bool {
    forall|w1: u8, e1: u32, w2: u8, e2: u32|
        #![trigger error_pattern(poly, w1, e1), error_pattern(poly, w2, e2)]
        error_pattern(poly, w1, e1) && error_pattern(poly, w2, e2) && gf2_rem(poly, e1) == gf2_rem(poly, e2)
            ==> w1 == w2 && e1 == e2
}

/// No correctable pattern looks like a clean block.
pub open spec fn detects(poly: u32) -> bool {
    forall|w: u8, e: u32| #[trigger] error_pattern(poly, w, e) ==> gf2_rem(poly, e) != 0
}

/// The generators of the protocol.
pub open spec fn is_generator(poly: u32) -> bool {
    poly == HDR || poly == LCW3 || poly == 465 || poly == MESSAGING || poly == RINGALERT || poly == ACCH
}

/// Whether a word is clean or differs from some word by a correctable pattern
/// of its own syndrome.
pub open spec fn correctable(poly: u32, word: u32, fix: (u8, u32)) -> bool {
    error_pattern(poly, fix.0, fix.1) && gf2_rem(poly, fix.1) == gf2_rem(poly, word)
}

/// Number of corrected bits, or none, and the word after correction.
pub open spec fn corrected(poly: u32, word: u32) -> (Option<u8>, u32) {
    if gf2_rem(poly, word) == 0 {
        (Some(0u8), word)
    } else if exists|fix: (u8, u32)| correctable(poly, word, fix) {
        let fix = choose|fix: (u8, u32)| correctable(poly, word, fix);
        (Some(fix.0), word ^ fix.1)
    } else {
        (None, word)
    }
}

/// The table of syndromes: each correctable pattern under its own syndrome.
pub open spec fn is_syndrome_table(poly: u32, m: Map<u32, (u8, u32)>) -> bool {
    &&& forall|s: u32| #[trigger] m.contains_key(s) ==> error_pattern(poly, m[s].0, m[s].1) && gf2_rem(
        poly,
        m[s].1,
    ) == s
    &&& forall|w: u8, e: u32| #[trigger]
        error_pattern(poly, w, e) ==> m.contains_key(gf2_rem(poly, e)) && m[gf2_rem(poly, e)] == (w, e)
}

proof fn lemma_bits(x: u32, y: u32, m: u32, k: u32)
    by (bit_vector)
    requires
        k < 32,
    ensures
        clear_bit(x ^ y, m, k) == clear_bit(x, m, k) ^ clear_bit(y, m, k),
        x >> ((k + 1) as u32) == 0 && m >> k == 1 ==> clear_bit(x, m, k) >> k == 0,
        x >> k == 0 ==> x >> ((k + 1) as u32) == 0 && clear_bit(x, m, k) == x,
        x >> 32u32 == 0,
        x ^ x == 0,
        x ^ 0 == x,
        0 ^ x == x,
        0u32 >> k == 0,
        (x ^ y) ^ y == x,
{
}

proof fn lemma_generator_bits(p: u32, d: u32, k: u32)
    by (bit_vector)
    requires
        p >> d == 1,
        d <= k,
        k < 32,
    ensures
        (p << ((k - d) as u32)) >> k == 1,
        k < 31 ==> (p << ((k - d) as u32)) >> ((k + 1) as u32) == 0,
        ((p << ((k - d) as u32)) >> k) & 1 == 1,
{
}

proof fn lemma_half(p: u32, d: u32)
    by (bit_vector)
    requires
        p > 1,
        d < 32,
        (p / 2) >> d == 1,
    ensures
        d < 31,
        p >> ((d + 1) as u32) == 1,
{
}

proof fn lemma_shifted(t: u32, p: u32, d: u32, k: u32)
    by (bit_vector)
    requires
        d <= k,
        k < 31,
    ensures
        clear_bit(t << 1, p << ((k + 1 - d) as u32), (k + 1) as u32) == clear_bit(t, p << ((k - d) as u32), k) << 1,
{
}

proof fn lemma_one_bit_bv(i: u32)
    by (bit_vector)
    requires
        i < 32,
    ensures
        i < 31 ==> (1u32 << i) >> 31 == 0,
        0 < i ==> (1u32 << ((i - 1) as u32)) << 1 == 1u32 << i,
        i == 0 ==> 1u32 << i == 1,
        1u32 >> 1 == 0,
        1u32 >> 4 == 0 && 1u32 >> 5 == 0 && 1u32 >> 8 == 0 && 1u32 >> 10 == 0 && 1u32 >> 11 == 0,
{
}

proof fn lemma_two_bits(a: u32, b: u32)
    by (bit_vector)
    requires
        a < b && b < 32,
    ensures
        (1u32 << a) | (1u32 << b) == (1u32 << a) ^ (1u32 << b),
{
}

proof fn lemma_xor_zero(a: u32, b: u32)
    by (bit_vector)
    ensures
        a ^ b == 0 ==> a == b,
{
}

proof fn lemma_degree(poly: u32)
    requires
        poly != 0,
    ensures
        degree(poly) < 32,
        poly >> degree(poly) == 1,
    decreases poly,
{
    if poly <= 1 {
        assert(1u32 >> 0u32 == 1u32) by (bit_vector);
    } else {
        lemma_degree(poly / 2);
        lemma_half(poly, degree(poly / 2));
    }
}

proof fn lemma_known_degrees()
    ensures
        degree(HDR) == 4,
        degree(LCW3) == 5,
        degree(465) == 8,
        degree(RINGALERT) == 10,
        degree(MESSAGING) == 10,
        degree(ACCH) == 11,
{
    reveal_with_fuel(degree, 13);
}

/// The header generator has four check bits.
pub proof fn lemma_header_degree()
    ensures
        degree(HDR) == 4,
{
    lemma_known_degrees();
}

proof fn lemma_one_bit(i: u32)
    requires
        i < 31,
    ensures
        (1u32 << i) >> 31 == 0,
        0 < i ==> (1u32 << ((i - 1) as u32)) << 1 == 1u32 << i,
        i == 0 ==> 1u32 << i == 1,
        0 < i ==> (1u32 << ((i - 1) as u32)) >> 31 == 0,
        1u32 >> 4 == 0 && 1u32 >> 5 == 0 && 1u32 >> 8 == 0 && 1u32 >> 10 == 0 && 1u32 >> 11 == 0,
{
    lemma_one_bit_bv(i);
    if 0 < i {
        lemma_one_bit_bv((i - 1) as u32);
    }
}

proof fn lemma_cancel_linear(poly: u32, d: u32, a: u32, b: u32, k: u32, lo: u32)
    requires
        k <= 32,
    ensures
        cancel(poly, d, a ^ b, k, lo) == cancel(poly, d, a, k, lo) ^ cancel(poly, d, b, k, lo),
    decreases k,
{
    if k > lo {
        let m = poly << ((k - 1 - d) as u32);
        let j = (k - 1) as u32;
        lemma_bits(a, b, m, j);
        lemma_cancel_linear(poly, d, clear_bit(a, m, j), clear_bit(b, m, j), j, lo);
    }
}

proof fn lemma_cancel_short(poly: u32, d: u32, t: u32, k: u32, lo: u32)
    requires
        lo < 32,
        k <= 32,
        t >> lo == 0,
    ensures
        cancel(poly, d, t, k, lo) == t,
    decreases k,
{
    if k > lo {
        let m = poly << ((k - 1 - d) as u32);
        let j = (k - 1) as u32;
        lemma_short_above(t, lo, j);
        lemma_bits(t, t, m, j);
        lemma_cancel_short(poly, d, t, j, lo);
    }
}

proof fn lemma_short_above(t: u32, lo: u32, j: u32)
    requires
        lo <= j < 32,
        t >> lo == 0,
    ensures
        t >> j == 0,
    decreases j,
{
    if lo < j {
        lemma_short_above(t, lo, (j - 1) as u32);
        lemma_bits(t, t, t, (j - 1) as u32);
    }
}

proof fn lemma_cancel_bound(poly: u32, d: u32, t: u32, k: u32, lo: u32)
    requires
        poly >> d == 1,
        d <= lo < 32,
        lo <= k <= 32,
        t >> k == 0,
    ensures
        cancel(poly, d, t, k, lo) >> lo == 0,
    decreases k,
{
    if k > lo {
        let j = (k - 1) as u32;
        let m = poly << ((j - d) as u32);
        lemma_generator_bits(poly, d, j);
        lemma_bits(t, t, m, j);
        lemma_cancel_bound(poly, d, clear_bit(t, m, j), j, lo);
    }
}

proof fn lemma_cancel_generator(poly: u32, d: u32, s: u32, k: u32)
    requires
        poly >> d == 1,
        d + s < k <= 32,
    ensures
        cancel(poly, d, poly << s, k, d) == 0,
    decreases k,
{
    let j = (k - 1) as u32;
    let m = poly << ((j - d) as u32);
    let t = poly << s;
    let top = (d + s) as u32;
    lemma_generator_bits(poly, d, top);
    lemma_bits(t, t, m, j);
    if j == top {
        lemma_bits(0, 0, 0, d);
        lemma_cancel_short(poly, d, 0, j, d);
    } else {
        lemma_short_above(t, (top + 1) as u32, j);
        lemma_cancel_generator(poly, d, s, j);
    }
}

proof fn lemma_cancel_last(poly: u32, d: u32, t: u32, k: u32, lo: u32)
    requires
        d <= lo < k <= 32,
    ensures
        cancel(poly, d, t, k, lo) == clear_bit(
            cancel(poly, d, t, k, (lo + 1) as u32),
            poly << ((lo - d) as u32),
            lo,
        ),
    decreases k,
{
    let j = (k - 1) as u32;
    let m = poly << ((j - d) as u32);
    if j > lo {
        lemma_cancel_last(poly, d, clear_bit(t, m, j), j, lo);
    } else {
        assert(cancel(poly, d, clear_bit(t, m, j), j, lo) == clear_bit(t, m, j));
        assert(cancel(poly, d, t, k, (lo + 1) as u32) == t);
    }
}

proof fn lemma_cancel_shifted(poly: u32, d: u32, t: u32, k: u32, lo: u32)
    requires
        d <= lo <= k <= 31,
    ensures
        cancel(poly, d, t << 1, (k + 1) as u32, (lo + 1) as u32) == cancel(poly, d, t, k, lo) << 1,
    decreases k,
{
    if k > lo {
        let j = (k - 1) as u32;
        lemma_shifted(t, poly, d, j);
        lemma_cancel_shifted(poly, d, clear_bit(t, poly << ((j - d) as u32), j), j, lo);
    }
}

/// Multiplying by x: the remainder is shifted and reduced once.
proof fn lemma_shift(poly: u32, t: u32)
    requires
        poly > 1,
        t >> 31 == 0,
    ensures
        gf2_rem(poly, t << 1) == clear_bit(gf2_rem(poly, t) << 1, poly, degree(poly)),
{
    let d = degree(poly);
    lemma_degree(poly);
    lemma_bits(t, t, poly << ((31 - d) as u32), 31);
    assert(cancel(poly, d, t, 32, d) == cancel(poly, d, t, 31, d)) by {
        if d == 31 {
            lemma_cancel_short(poly, d, t, 32, 31);
        }
    }
    lemma_cancel_last(poly, d, t << 1, 32, d);
    lemma_cancel_shifted(poly, d, t, 31, d);
    assert(poly << ((d - d) as u32) == poly) by {
        assert(poly << 0u32 == poly) by (bit_vector);
    }
}

proof fn lemma_short_word(poly: u32, num: u32)
    requires
        poly != 0,
        num >> degree(poly) == 0,
    ensures
        gf2_rem(poly, num) == num,
{
    lemma_degree(poly);
    lemma_cancel_short(poly, degree(poly), num, 32, degree(poly));
}

proof fn lemma_linear(poly: u32, a: u32, b: u32)
    ensures
        gf2_rem(poly, a ^ b) == gf2_rem(poly, a) ^ gf2_rem(poly, b),
{
    if poly != 0 {
        lemma_cancel_linear(poly, degree(poly), a, b, 32, degree(poly));
    }
}

/// The remainder of a sum is the sum of the remainders.
pub proof fn law_remainder_of_a_sum(poly: u32, a: u32, b: u32)
    ensures
        gf2_rem(poly, a ^ b) == gf2_rem(poly, a) ^ gf2_rem(poly, b),
{
    lemma_linear(poly, a, b);
}

/// A remainder has a lower degree than the divisor, and a word of lower degree
/// is its own remainder.
pub proof fn law_remainder_is_reduced(poly: u32, num: u32)
    requires
        poly != 0,
    ensures
        gf2_rem(poly, num) >> degree(poly) == 0,
        num >> degree(poly) == 0 ==> gf2_rem(poly, num) == num,
        gf2_rem(poly, gf2_rem(poly, num)) == gf2_rem(poly, num),
{
    let d = degree(poly);
    lemma_degree(poly);
    lemma_bits(num, num, num, 0);
    lemma_cancel_bound(poly, d, num, 32, d);
    if num >> d == 0 {
        lemma_short_word(poly, num);
    }
    lemma_short_word(poly, gf2_rem(poly, num));
}

/// Every multiple of a polynomial divides cleanly by it.
pub proof fn law_multiples_divide_cleanly(poly: u32, q: u32, n: u32)
    requires
        poly != 0,
        degree(poly) + n <= 32,
    ensures
        gf2_rem(poly, gf2_product(poly, q, n)) == 0,
    decreases n,
{
    lemma_degree(poly);
    let d = degree(poly);
    if n == 0 {
        lemma_bits(0, 0, 0, d);
        lemma_short_word(poly, 0);
    } else {
        law_multiples_divide_cleanly(poly, q, (n - 1) as u32);
        lemma_cancel_generator(poly, d, (n - 1) as u32, 32);
        lemma_linear(poly, gf2_product(poly, q, (n - 1) as u32), poly << ((n - 1) as u32));
        lemma_bits(0, 0, 0, 0);
    }
}

proof fn lemma_single_bit(s: u32, m: u32, a: u32)
    by (bit_vector)
    requires
        s < 32,
    ensures
        m < s ==> ((1u32 << s) >> m) & 1 == 0,
        ((1u32 << s) >> s) & 1 == 1,
        0u32 ^ a == a,
        a ^ 0u32 == a,
{
}

proof fn lemma_product_with_a_bit(a: u32, s: u32, m: u32)
    requires
        m <= s < 32,
    ensures
        gf2_product(a, 1u32 << s, m) == 0,
    decreases m,
{
    if m > 0 {
        lemma_product_with_a_bit(a, s, (m - 1) as u32);
        lemma_single_bit(s, (m - 1) as u32, a);
    }
}

proof fn lemma_shifted_generator(poly: u32, word: u32, s: u32)
    requires
        poly != 0,
        degree(poly) + s + 1 <= 32,
    ensures
        gf2_rem(poly, word ^ (poly << s)) == gf2_rem(poly, word),
{
    lemma_product_with_a_bit(poly, s, s);
    lemma_single_bit(s, s, poly << s);
    assert(gf2_product(poly, 1u32 << s, (s + 1) as u32) == poly << s);
    law_multiples_divide_cleanly(poly, 1u32 << s, (s + 1) as u32);
    law_remainder_of_a_sum(poly, word, poly << s);
    lemma_single_bit(0, 0, gf2_rem(poly, word));
}

/// The generators of the blocks are x^10 + x^7 + x^5 + x^4 + x^2 + x + 1 for ring alerts,
/// x^10 + x^9 + x^8 + x^6 + x^5 + x^3 + 1 for messaging and x^11 + x^10 + x^8 + x^7 + x^6 + x^4 +
/// x^3 + 1 for the associated channel, that of the headers is x^4 + x^3 + x^2 + 1 and that of
/// the third part of a link control word x^5 + x^3 + 1: adding these bits to a block, at any
/// place in it, does not change its remainder.
pub proof fn law_generators_do_not_count(word: u32, s: u32)
    ensures
        s <= 20 ==> gf2_rem(RINGALERT, word ^ (0b100_1011_0111u32 << s)) == gf2_rem(RINGALERT, word),
        s <= 20 ==> gf2_rem(MESSAGING, word ^ (0b111_0110_1001u32 << s)) == gf2_rem(MESSAGING, word),
        s <= 19 ==> gf2_rem(ACCH, word ^ (0b1101_1101_1001u32 << s)) == gf2_rem(ACCH, word),
        s <= 26 ==> gf2_rem(HDR, word ^ (0b1_1101u32 << s)) == gf2_rem(HDR, word),
        s <= 25 ==> gf2_rem(LCW3, word ^ (0b10_1001u32 << s)) == gf2_rem(LCW3, word),
{
    reveal_with_fuel(degree, 13);
    if s <= 20 {
        lemma_shifted_generator(RINGALERT, word, s);
    }
    if s <= 20 {
        lemma_shifted_generator(MESSAGING, word, s);
    }
    if s <= 19 {
        lemma_shifted_generator(ACCH, word, s);
    }
    if s <= 26 {
        lemma_shifted_generator(HDR, word, s);
    }
    if s <= 25 {
        lemma_shifted_generator(LCW3, word, s);
    }
}

/// A data word followed by its own remainder is a codeword.
pub proof fn law_appended_remainder_divides(poly: u32, data: u32)
    requires
        poly != 0,
    ensures
        gf2_rem(poly, data ^ gf2_rem(poly, data)) == 0,
{
    law_remainder_is_reduced(poly, data);
    lemma_linear(poly, data, gf2_rem(poly, data));
    lemma_bits(gf2_rem(poly, data), 0, 0, 0);
}

/// Remainders of the single-bit patterns under the `RINGALERT` generator.
spec fn ringalert_remainders(i: u32) -> u32 {
    if i == 0 { 1 } else if i == 1 { 2 } else if i == 2 { 4 } else if i == 3 { 8 } else if i == 4 { 16 } else 
    if i == 5 { 32 } else if i == 6 { 64 } else if i == 7 { 128 } else if i == 8 { 256 } else if i == 9 { 512 } else 
    if i == 10 { 183 } else if i == 11 { 366 } else if i == 12 { 732 } else if i == 13 { 271 } else if i == 14 { 542 } else 
    if i == 15 { 139 } else if i == 16 { 278 } else if i == 17 { 556 } else if i == 18 { 239 } else if i == 19 { 478 } else 
    if i == 20 { 956 } else if i == 21 { 975 } else if i == 22 { 809 } else if i == 23 { 741 } else if i == 24 { 381 } else 
    if i == 25 { 762 } else if i == 26 { 323 } else if i == 27 { 646 } else if i == 28 { 443 } else if i == 29 { 886 } else 
    { 603 }
}

spec fn ringalert_pair(i: u32, j: u32) -> u32 {
    if i == j {
        ringalert_remainders(i)
    } else {
        ringalert_remainders(i) ^ ringalert_remainders(j)
    }
}

#[verifier::rlimit(100)]
#[verifier::spinoff_prover]
proof fn lemma_ringalert_remainders(i: u32, j: u32, k: u32, l: u32)
    by (bit_vector)
    requires
        i < 31 && j < 31 && k < 31 && l < 31,
    ensures
        i < 30 ==> ringalert_remainders((i + 1) as u32) == clear_bit(ringalert_remainders(i) << 1, 1207u32, 10u32),
        ringalert_remainders(i) != 0,
        i <= j && k <= l && ringalert_pair(i, j) == ringalert_pair(k, l) ==> i == k && j == l,
{
}

proof fn lemma_ringalert_table(i: u32)
    requires
        i < 31,
    ensures
        gf2_rem(RINGALERT, 1u32 << i) == ringalert_remainders(i),
    decreases i,
{
    lemma_known_degrees();
    if i == 0 {
        lemma_one_bit(0);
        lemma_short_word(RINGALERT, 1u32 << 0u32);
    } else {
        lemma_ringalert_table((i - 1) as u32);
        lemma_ringalert_remainders((i - 1) as u32, 0, 0, 0);
        lemma_one_bit(i);
        lemma_shift(RINGALERT, 1u32 << ((i - 1) as u32));
    }
}

proof fn lemma_ringalert_distinguishes()
    ensures
        distinguishes(RINGALERT),
        detects(RINGALERT),
{
    assert forall|w1: u8, e1: u32, w2: u8, e2: u32|
        #![trigger error_pattern(RINGALERT, w1, e1), error_pattern(RINGALERT, w2, e2)]
        error_pattern(RINGALERT, w1, e1) && error_pattern(RINGALERT, w2, e2) && gf2_rem(RINGALERT, e1) == gf2_rem(RINGALERT, e2)
        implies w1 == w2 && e1 == e2 by {
        let (i, j) = lemma_ringalert_positions(w1, e1);
        let (k, l) = lemma_ringalert_positions(w2, e2);
        lemma_ringalert_remainders(i, j, k, l);
    }
    assert forall|w: u8, e: u32| #[trigger] error_pattern(RINGALERT, w, e) implies gf2_rem(RINGALERT, e) != 0 by {
        let (i, j) = lemma_ringalert_positions(w, e);
        lemma_ringalert_remainders(i, i, j, j);
        lemma_xor_zero(ringalert_remainders(i), ringalert_remainders(j));
    }
}

proof fn lemma_ringalert_positions(w: u8, e: u32) -> (r: (u32, u32))
    requires
        error_pattern(RINGALERT, w, e),
    ensures
        r.0 <= r.1 < 31,
        w == 1 <==> r.0 == r.1,
        w == 1 || w == 2,
        w == 1 ==> e == 1u32 << r.0,
        w == 2 ==> e == (1u32 << r.0) | (1u32 << r.1),
        gf2_rem(RINGALERT, e) == ringalert_pair(r.0, r.1),
{
    if w == 1 {
        let a = choose|a: u32| a < code_params(RINGALERT).0 && e == 1u32 << a;
        lemma_ringalert_table(a);
        (a, a)
    } else {
        let (a, b) = choose|a: u32, b: u32| a < b && b < code_params(RINGALERT).0 && e == (1u32 << a) | (1u32 << b);
        lemma_ringalert_table(a);
        lemma_ringalert_table(b);
        lemma_two_bits(a, b);
        lemma_linear(RINGALERT, 1u32 << a, 1u32 << b);
        (a, b)
    }
}

/// Remainders of the single-bit patterns under the `MESSAGING` generator.
spec fn messaging_remainders(i: u32) -> u32 {
    if i == 0 { 1 } else if i == 1 { 2 } else if i == 2 { 4 } else if i == 3 { 8 } else if i == 4 { 16 } else 
    if i == 5 { 32 } else if i == 6 { 64 } else if i == 7 { 128 } else if i == 8 { 256 } else if i == 9 { 512 } else 
    if i == 10 { 873 } else if i == 11 { 443 } else if i == 12 { 886 } else if i == 13 { 389 } else if i == 14 { 778 } else 
    if i == 15 { 381 } else if i == 16 { 762 } else if i == 17 { 669 } else if i == 18 { 595 } else if i == 19 { 975 } else 
    if i == 20 { 247 } else if i == 21 { 494 } else if i == 22 { 988 } else if i == 23 { 209 } else if i == 24 { 418 } else 
    if i == 25 { 836 } else if i == 26 { 481 } else if i == 27 { 962 } else if i == 28 { 237 } else if i == 29 { 474 } else 
    { 948 }
}

spec fn messaging_pair(i: u32, j: u32) -> u32 {
    if i == j {
        messaging_remainders(i)
    } else {
        messaging_remainders(i) ^ messaging_remainders(j)
    }
}

#[verifier::rlimit(100)]
#[verifier::spinoff_prover]
proof fn lemma_messaging_remainders(i: u32, j: u32, k: u32, l: u32)
    by (bit_vector)
    requires
        i < 31 && j < 31 && k < 31 && l < 31,
    ensures
        i < 30 ==> messaging_remainders((i + 1) as u32) == clear_bit(messaging_remainders(i) << 1, 1897u32, 10u32),
        messaging_remainders(i) != 0,
        i <= j && k <= l && messaging_pair(i, j) == messaging_pair(k, l) ==> i == k && j == l,
{
}

proof fn lemma_messaging_table(i: u32)
    requires
        i < 31,
    ensures
        gf2_rem(MESSAGING, 1u32 << i) == messaging_remainders(i),
    decreases i,
{
    lemma_known_degrees();
    if i == 0 {
        lemma_one_bit(0);
        lemma_short_word(MESSAGING, 1u32 << 0u32);
    } else {
        lemma_messaging_table((i - 1) as u32);
        lemma_messaging_remainders((i - 1) as u32, 0, 0, 0);
        lemma_one_bit(i);
        lemma_shift(MESSAGING, 1u32 << ((i - 1) as u32));
    }
}

proof fn lemma_messaging_distinguishes()
    ensures
        distinguishes(MESSAGING),
        detects(MESSAGING),
{
    assert forall|w1: u8, e1: u32, w2: u8, e2: u32|
        #![trigger error_pattern(MESSAGING, w1, e1), error_pattern(MESSAGING, w2, e2)]
        error_pattern(MESSAGING, w1, e1) && error_pattern(MESSAGING, w2, e2) && gf2_rem(MESSAGING, e1) == gf2_rem(MESSAGING, e2)
        implies w1 == w2 && e1 == e2 by {
        let (i, j) = lemma_messaging_positions(w1, e1);
        let (k, l) = lemma_messaging_positions(w2, e2);
        lemma_messaging_remainders(i, j, k, l);
    }
    assert forall|w: u8, e: u32| #[trigger] error_pattern(MESSAGING, w, e) implies gf2_rem(MESSAGING, e) != 0 by {
        let (i, j) = lemma_messaging_positions(w, e);
        lemma_messaging_remainders(i, i, j, j);
        lemma_xor_zero(messaging_remainders(i), messaging_remainders(j));
    }
}

proof fn lemma_messaging_positions(w: u8, e: u32) -> (r: (u32, u32))
    requires
        error_pattern(MESSAGING, w, e),
    ensures
        r.0 <= r.1 < 31,
        w == 1 <==> r.0 == r.1,
        w == 1 || w == 2,
        w == 1 ==> e == 1u32 << r.0,
        w == 2 ==> e == (1u32 << r.0) | (1u32 << r.1),
        gf2_rem(MESSAGING, e) == messaging_pair(r.0, r.1),
{
    if w == 1 {
        let a = choose|a: u32| a < code_params(MESSAGING).0 && e == 1u32 << a;
        lemma_messaging_table(a);
        (a, a)
    } else {
        let (a, b) = choose|a: u32, b: u32| a < b && b < code_params(MESSAGING).0 && e == (1u32 << a) | (1u32 << b);
        lemma_messaging_table(a);
        lemma_messaging_table(b);
        lemma_two_bits(a, b);
        lemma_linear(MESSAGING, 1u32 << a, 1u32 << b);
        (a, b)
    }
}

/// Remainders of the single-bit patterns under the `ACCH` generator.
spec fn acch_remainders(i: u32) -> u32 {
    if i == 0 { 1 } else if i == 1 { 2 } else if i == 2 { 4 } else if i == 3 { 8 } else if i == 4 { 16 } else 
    if i == 5 { 32 } else if i == 6 { 64 } else if i == 7 { 128 } else if i == 8 { 256 } else if i == 9 { 512 } else 
    if i == 10 { 1024 } else if i == 11 { 1497 } else if i == 12 { 1643 } else if i == 13 { 271 } else if i == 14 { 542 } else 
    if i == 15 { 1084 } else if i == 16 { 1441 } else if i == 17 { 1691 } else if i == 18 { 239 } else if i == 19 { 478 } else 
    if i == 20 { 956 } else if i == 21 { 1912 } else if i == 22 { 809 } else if i == 23 { 1618 } else if i == 24 { 381 } else 
    if i == 25 { 762 } else if i == 26 { 1524 } else if i == 27 { 1585 } else if i == 28 { 443 } else if i == 29 { 886 } else 
    { 1772 }
}

spec fn acch_pair(i: u32, j: u32) -> u32 {
    if i == j {
        acch_remainders(i)
    } else {
        acch_remainders(i) ^ acch_remainders(j)
    }
}

#[verifier::rlimit(100)]
#[verifier::spinoff_prover]
proof fn lemma_acch_remainders(i: u32, j: u32, k: u32, l: u32)
    by (bit_vector)
    requires
        i < 31 && j < 31 && k < 31 && l < 31,
    ensures
        i < 30 ==> acch_remainders((i + 1) as u32) == clear_bit(acch_remainders(i) << 1, 3545u32, 11u32),
        acch_remainders(i) != 0,
        i <= j && k <= l && acch_pair(i, j) == acch_pair(k, l) ==> i == k && j == l,
{
}

proof fn lemma_acch_table(i: u32)
    requires
        i < 31,
    ensures
        gf2_rem(ACCH, 1u32 << i) == acch_remainders(i),
    decreases i,
{
    lemma_known_degrees();
    if i == 0 {
        lemma_one_bit(0);
        lemma_short_word(ACCH, 1u32 << 0u32);
    } else {
        lemma_acch_table((i - 1) as u32);
        lemma_acch_remainders((i - 1) as u32, 0, 0, 0);
        lemma_one_bit(i);
        lemma_shift(ACCH, 1u32 << ((i - 1) as u32));
    }
}

proof fn lemma_acch_distinguishes()
    ensures
        distinguishes(ACCH),
        detects(ACCH),
{
    assert forall|w1: u8, e1: u32, w2: u8, e2: u32|
        #![trigger error_pattern(ACCH, w1, e1), error_pattern(ACCH, w2, e2)]
        error_pattern(ACCH, w1, e1) && error_pattern(ACCH, w2, e2) && gf2_rem(ACCH, e1) == gf2_rem(ACCH, e2)
        implies w1 == w2 && e1 == e2 by {
        let (i, j) = lemma_acch_positions(w1, e1);
        let (k, l) = lemma_acch_positions(w2, e2);
        lemma_acch_remainders(i, j, k, l);
    }
    assert forall|w: u8, e: u32| #[trigger] error_pattern(ACCH, w, e) implies gf2_rem(ACCH, e) != 0 by {
        let (i, j) = lemma_acch_positions(w, e);
        lemma_acch_remainders(i, i, j, j);
        lemma_xor_zero(acch_remainders(i), acch_remainders(j));
    }
}

proof fn lemma_acch_positions(w: u8, e: u32) -> (r: (u32, u32))
    requires
        error_pattern(ACCH, w, e),
    ensures
        r.0 <= r.1 < 31,
        w == 1 <==> r.0 == r.1,
        w == 1 || w == 2,
        w == 1 ==> e == 1u32 << r.0,
        w == 2 ==> e == (1u32 << r.0) | (1u32 << r.1),
        gf2_rem(ACCH, e) == acch_pair(r.0, r.1),
{
    if w == 1 {
        let a = choose|a: u32| a < code_params(ACCH).0 && e == 1u32 << a;
        lemma_acch_table(a);
        (a, a)
    } else {
        let (a, b) = choose|a: u32, b: u32| a < b && b < code_params(ACCH).0 && e == (1u32 << a) | (1u32 << b);
        lemma_acch_table(a);
        lemma_acch_table(b);
        lemma_two_bits(a, b);
        lemma_linear(ACCH, 1u32 << a, 1u32 << b);
        (a, b)
    }
}

/// Remainders of the single-bit patterns under the `HDR` generator.
spec fn hdr_remainders(i: u32) -> u32 {
    if i == 0 { 1 } else if i == 1 { 2 } else if i == 2 { 4 } else if i == 3 { 8 } else if i == 4 { 13 } else 
    if i == 5 { 7 } else { 14 }
}

#[verifier::rlimit(100)]
proof fn lemma_hdr_remainders(i: u32, k: u32)
    by (bit_vector)
    requires
        i < 7 && k < 7,
    ensures
        i < 6 ==> hdr_remainders((i + 1) as u32) == clear_bit(hdr_remainders(i) << 1, 29u32, 4u32),
        hdr_remainders(i) != 0,
        hdr_remainders(i) == hdr_remainders(k) ==> i == k,
{
}

proof fn lemma_hdr_table(i: u32)
    requires
        i < 7,
    ensures
        gf2_rem(HDR, 1u32 << i) == hdr_remainders(i),
    decreases i,
{
    lemma_known_degrees();
    if i == 0 {
        lemma_one_bit(0);
        lemma_short_word(HDR, 1u32 << 0u32);
    } else {
        lemma_hdr_table((i - 1) as u32);
        lemma_hdr_remainders((i - 1) as u32, 0);
        lemma_one_bit(i);
        lemma_shift(HDR, 1u32 << ((i - 1) as u32));
    }
}

proof fn lemma_hdr_distinguishes()
    ensures
        distinguishes(HDR),
        detects(HDR),
{
    assert forall|w1: u8, e1: u32, w2: u8, e2: u32|
        #![trigger error_pattern(HDR, w1, e1), error_pattern(HDR, w2, e2)]
        error_pattern(HDR, w1, e1) && error_pattern(HDR, w2, e2) && gf2_rem(HDR, e1) == gf2_rem(HDR, e2)
        implies w1 == w2 && e1 == e2 by {
        let i = choose|a: u32| a < code_params(HDR).0 && e1 == 1u32 << a;
        let k = choose|a: u32| a < code_params(HDR).0 && e2 == 1u32 << a;
        lemma_hdr_table(i);
        lemma_hdr_table(k);
        lemma_hdr_remainders(i, k);
    }
    assert forall|w: u8, e: u32| #[trigger] error_pattern(HDR, w, e) implies gf2_rem(HDR, e) != 0 by {
        let i = choose|a: u32| a < code_params(HDR).0 && e == 1u32 << a;
        lemma_hdr_table(i);
        lemma_hdr_remainders(i, i);
    }
}

/// Remainders of the single-bit patterns under the `LCW3` generator.
spec fn lcw3_remainders(i: u32) -> u32 {
    if i == 0 { 1 } else if i == 1 { 2 } else if i == 2 { 4 } else if i == 3 { 8 } else if i == 4 { 16 } else 
    if i == 5 { 9 } else if i == 6 { 18 } else if i == 7 { 13 } else if i == 8 { 26 } else if i == 9 { 29 } else 
    if i == 10 { 19 } else if i == 11 { 15 } else if i == 12 { 30 } else if i == 13 { 21 } else if i == 14 { 3 } else 
    if i == 15 { 6 } else if i == 16 { 12 } else if i == 17 { 24 } else if i == 18 { 25 } else if i == 19 { 27 } else 
    if i == 20 { 31 } else if i == 21 { 23 } else if i == 22 { 7 } else if i == 23 { 14 } else if i == 24 { 28 } else 
    { 17 }
}

#[verifier::rlimit(100)]
proof fn lemma_lcw3_remainders(i: u32, k: u32)
    by (bit_vector)
    requires
        i < 26 && k < 26,
    ensures
        i < 25 ==> lcw3_remainders((i + 1) as u32) == clear_bit(lcw3_remainders(i) << 1, 41u32, 5u32),
        lcw3_remainders(i) != 0,
        lcw3_remainders(i) == lcw3_remainders(k) ==> i == k,
{
}

proof fn lemma_lcw3_table(i: u32)
    requires
        i < 26,
    ensures
        gf2_rem(LCW3, 1u32 << i) == lcw3_remainders(i),
    decreases i,
{
    lemma_known_degrees();
    if i == 0 {
        lemma_one_bit(0);
        lemma_short_word(LCW3, 1u32 << 0u32);
    } else {
        lemma_lcw3_table((i - 1) as u32);
        lemma_lcw3_remainders((i - 1) as u32, 0);
        lemma_one_bit(i);
        lemma_shift(LCW3, 1u32 << ((i - 1) as u32));
    }
}

proof fn lemma_lcw3_distinguishes()
    ensures
        distinguishes(LCW3),
        detects(LCW3),
{
    assert forall|w1: u8, e1: u32, w2: u8, e2: u32|
        #![trigger error_pattern(LCW3, w1, e1), error_pattern(LCW3, w2, e2)]
        error_pattern(LCW3, w1, e1) && error_pattern(LCW3, w2, e2) && gf2_rem(LCW3, e1) == gf2_rem(LCW3, e2)
        implies w1 == w2 && e1 == e2 by {
        let i = choose|a: u32| a < code_params(LCW3).0 && e1 == 1u32 << a;
        let k = choose|a: u32| a < code_params(LCW3).0 && e2 == 1u32 << a;
        lemma_lcw3_table(i);
        lemma_lcw3_table(k);
        lemma_lcw3_remainders(i, k);
    }
    assert forall|w: u8, e: u32| #[trigger] error_pattern(LCW3, w, e) implies gf2_rem(LCW3, e) != 0 by {
        let i = choose|a: u32| a < code_params(LCW3).0 && e == 1u32 << a;
        lemma_lcw3_table(i);
        lemma_lcw3_remainders(i, i);
    }
}

/// Remainders of the single-bit patterns under generator 465.
spec fn lcw2_remainders(i: u32) -> u32 {
    if i == 0 { 1 } else if i == 1 { 2 } else if i == 2 { 4 } else if i == 3 { 8 } else if i == 4 { 16 } else 
    if i == 5 { 32 } else if i == 6 { 64 } else if i == 7 { 128 } else if i == 8 { 209 } else if i == 9 { 115 } else 
    if i == 10 { 230 } else if i == 11 { 29 } else if i == 12 { 58 } else { 116 }
}

spec fn lcw2_pair(i: u32, j: u32) -> u32 {
    if i == j {
        lcw2_remainders(i)
    } else {
        lcw2_remainders(i) ^ lcw2_remainders(j)
    }
}

#[verifier::rlimit(100)]
#[verifier::spinoff_prover]
proof fn lemma_lcw2_remainders(i: u32, j: u32, k: u32, l: u32)
    by (bit_vector)
    requires
        i < 14 && j < 14 && k < 14 && l < 14,
    ensures
        i < 13 ==> lcw2_remainders((i + 1) as u32) == clear_bit(lcw2_remainders(i) << 1, 465u32, 8u32),
        lcw2_remainders(i) != 0,
        i <= j && k <= l && lcw2_pair(i, j) == lcw2_pair(k, l) ==> i == k && j == l,
{
}

proof fn lemma_lcw2_table(i: u32)
    requires
        i < 14,
    ensures
        gf2_rem(465u32, 1u32 << i) == lcw2_remainders(i),
    decreases i,
{
    lemma_known_degrees();
    if i == 0 {
        lemma_one_bit(0);
        lemma_short_word(465u32, 1u32 << 0u32);
    } else {
        lemma_lcw2_table((i - 1) as u32);
        lemma_lcw2_remainders((i - 1) as u32, 0, 0, 0);
        lemma_one_bit(i);
        lemma_shift(465u32, 1u32 << ((i - 1) as u32));
    }
}

proof fn lemma_lcw2_distinguishes()
    ensures
        distinguishes(465u32),
        detects(465u32),
{
    assert forall|w1: u8, e1: u32, w2: u8, e2: u32|
        #![trigger error_pattern(465u32, w1, e1), error_pattern(465u32, w2, e2)]
        error_pattern(465u32, w1, e1) && error_pattern(465u32, w2, e2) && gf2_rem(465u32, e1) == gf2_rem(465u32, e2)
        implies w1 == w2 && e1 == e2 by {
        let (i, j) = lemma_lcw2_positions(w1, e1);
        let (k, l) = lemma_lcw2_positions(w2, e2);
        lemma_lcw2_remainders(i, j, k, l);
    }
    assert forall|w: u8, e: u32| #[trigger] error_pattern(465u32, w, e) implies gf2_rem(465u32, e) != 0 by {
        let (i, j) = lemma_lcw2_positions(w, e);
        lemma_lcw2_remainders(i, i, j, j);
        lemma_xor_zero(lcw2_remainders(i), lcw2_remainders(j));
    }
}

proof fn lemma_lcw2_positions(w: u8, e: u32) -> (r: (u32, u32))
    requires
        error_pattern(465u32, w, e),
    ensures
        r.0 <= r.1 < 14,
        w == 1 <==> r.0 == r.1,
        w == 1 || w == 2,
        w == 1 ==> e == 1u32 << r.0,
        w == 2 ==> e == (1u32 << r.0) | (1u32 << r.1),
        gf2_rem(465u32, e) == lcw2_pair(r.0, r.1),
{
    if w == 1 {
        let a = choose|a: u32| a < code_params(465u32).0 && e == 1u32 << a;
        lemma_lcw2_table(a);
        (a, a)
    } else {
        let (a, b) = choose|a: u32, b: u32| a < b && b < code_params(465u32).0 && e == (1u32 << a) | (1u32 << b);
        lemma_lcw2_table(a);
        lemma_lcw2_table(b);
        lemma_two_bits(a, b);
        lemma_linear(465u32, 1u32 << a, 1u32 << b);
        (a, b)
    }
}

/// The generators of the protocol tell every pair of correctable patterns
/// apart, and tell each of them from a clean block.
pub proof fn law_generators_distinguish(poly: u32)
    requires
        is_generator(poly),
    ensures
        distinguishes(poly),
        detects(poly),
{
    if poly == RINGALERT {
        lemma_ringalert_distinguishes();
    } else if poly == MESSAGING {
        lemma_messaging_distinguishes();
    } else if poly == ACCH {
        lemma_acch_distinguishes();
    } else if poly == HDR {
        lemma_hdr_distinguishes();
    } else if poly == LCW3 {
        lemma_lcw3_distinguishes();
    } else {
        lemma_lcw2_distinguishes();
    }
}

/// A codeword hit by a correctable pattern is restored, and the number of
/// flipped bits is reported.
pub proof fn law_errors_are_corrected(poly: u32, word: u32, weight: u8, e: u32)
    requires
        is_generator(poly),
        gf2_rem(poly, word) == 0,
        error_pattern(poly, weight, e),
    ensures
        corrected(poly, word ^ e) == (Some(weight), word),
{
    law_generators_distinguish(poly);
    lemma_linear(poly, word, e);
    lemma_bits(gf2_rem(poly, e), 0, 0, 0);
    lemma_bits(word, e, 0, 0);
    assert(correctable(poly, word ^ e, (weight, e)));
}

/// A corrected word is a codeword.
pub proof fn law_corrected_words_are_clean(poly: u32, word: u32)
    ensures
        corrected(poly, word).0 is Some ==> gf2_rem(poly, corrected(poly, word).1) == 0,
        corrected(poly, word).0 is None ==> corrected(poly, word).1 == word,
{
    if gf2_rem(poly, word) != 0 && exists|fix: (u8, u32)| correctable(poly, word, fix) {
        let fix = choose|fix: (u8, u32)| correctable(poly, word, fix);
        lemma_linear(poly, word, fix.1);
        lemma_bits(gf2_rem(poly, word), 0, 0, 0);
    }
}

/// Degree of a nonzero polynomial.
fn degree_of(poly: u32) -> (d: u32)
    requires
        poly != 0,
    ensures
        d == degree(poly),
        d < 32,
{
    let mut p: u32 = poly;
    let mut d: u32 = 0;
    proof {
        lemma_degree(poly);
    }
    while p > 1
        invariant
            p != 0,
            degree(poly) == d + degree(p),
            degree(poly) < 32,
        decreases p,
    {
        proof {
            lemma_degree(p);
            lemma_degree(p / 2);
        }
        p = p / 2;
        d += 1;
    }
    d
}

/// Remainder of `num` divided by `poly` in GF(2).
pub fn gf2_remainder(poly: u32, num: u32) -> (r: u32)
    requires
        poly != 0 || num < 0x8000_0000,
    ensures
        r == gf2_rem(poly, num),
{
    if poly == 0 {
        return num;
    }
    let d: u32 = degree_of(poly);
    let mut t: u32 = num;
    let mut k: u32 = 32;
    while k > d
        invariant
            d == degree(poly),
            d <= k <= 32,
            cancel(poly, d, t, k, d) == cancel(poly, d, num, 32, d),
        decreases k,
    {
        k -= 1;
        if (t >> k) & 1 == 1 {
            t = t ^ (poly << (k - d));
        }
    }
    t
}

/// Value of a bit string, most significant digit first; only the last 32
/// digits count.
pub fn bit_string_word(bits: &str) -> (v: u32)
    ensures
        v == bit_word(bits@),
{
    let mut v: u32 = 0;
    for c in it: bits.chars()
        invariant
            it.seq() == bits@,
            v == bit_word(bits@.take(it.index() as int)),
    {
        proof {
            let n = it.index() as int;
            assert(bits@.take(n + 1).drop_last() == bits@.take(n));
        }
        v = (v << 1) | (if c == '1' { 1u32 } else { 0u32 });
    }
    proof {
        assert(bits@.take(bits@.len() as int) == bits@);
    }
    v
}

/// Remainder of a bit string.
pub fn gf2_remainder_bits(poly: u32, bits: &str) -> (r: u32)
    requires
        poly != 0 || bit_word(bits@) < 0x8000_0000,
    ensures
        r == gf2_rem(poly, bit_word(bits@)),
{
    let v: u32 = bit_string_word(bits);
    gf2_remainder(poly, v)
}

/// Code parameters of a generator: data and check bits together, and the
/// number of errors that can be corrected.
///
/// A BCH code with 10 check bits has 1024 syndromes against 31 single and 465
/// double error patterns, 496 in all, which fit without collision. Triple
/// patterns would not, and a decoder that tried them could never report a block
/// as uncorrectable.
pub fn params(poly: u32) -> (r: (usize, u8))
    ensures
        r == code_params(poly),
{
    if poly == HDR {
        (7, 1)
    } else if poly == LCW3 {
        (26, 1)
    } else if poly == 465 {
        (14, 2)
    } else {
        (31, 2)
    }
}

/// Patterns entered so far: `singles` single-bit patterns, and the double-bit
/// patterns whose positions come before the pair of `n1` and `n2`.
spec fn entered(poly: u32, singles: int, n1: int, n2: int, w: u8, e: u32) -> bool {
    ||| w == 1 && exists|a: u32| a < singles && e == 1u32 << a
    ||| w == 2 && exists|a: u32, b: u32|
        a < b && b < code_params(poly).0 && (a < n1 || a == n1 && b < n2) && e == (1u32 << a) | (1u32 << b)
}

spec fn table_so_far(poly: u32, m: Map<u32, (u8, u32)>, singles: int, n1: int, n2: int) -> bool {
    &&& forall|s: u32| #[trigger]
        m.contains_key(s) ==> entered(poly, singles, n1, n2, m[s].0, m[s].1) && gf2_rem(poly, m[s].1) == s
    &&& forall|w: u8, e: u32| #[trigger]
        entered(poly, singles, n1, n2, w, e) ==> m.contains_key(gf2_rem(poly, e)) && m[gf2_rem(poly, e)] == (
            w,
            e,
        )
}

proof fn lemma_entered_is_pattern(poly: u32, singles: int, n1: int, n2: int, w: u8, e: u32)
    requires
        entered(poly, singles, n1, n2, w, e),
        singles <= code_params(poly).0,
        w == 2 ==> code_params(poly).1 >= 2,
    ensures
        error_pattern(poly, w, e),
{
}

/// Syndrome to (weight, error pattern), for every correctable pattern.
pub fn syndromes(poly: u32) -> (t: HashMap<u32, (u8, u32)>)
    requires
        poly != 0,
        distinguishes(poly),
    ensures
        is_syndrome_table(poly, t@),
{
    broadcast use vstd::std_specs::hash::group_hash_axioms;

    let p: (usize, u8) = params(poly);
    let bits: u32 = p.0 as u32;
    let max_err: u8 = p.1;
    let mut t: HashMap<u32, (u8, u32)> = HashMap::new();
    let mut n: u32 = 0;
    while n < bits
        invariant
            poly != 0,
            distinguishes(poly),
            (p.0, max_err) == code_params(poly),
            bits == p.0,
            bits <= 31,
            n <= bits,
            table_so_far(poly, t@, n as int, 0, 0),
        decreases bits - n,
    {
        let val: u32 = 1u32 << n;
        let r: u32 = gf2_remainder(poly, val);
        let ghost before = t@;
        t.insert(r, (1u8, val));
        proof {
            assert(error_pattern(poly, 1, val));
            assert(entered(poly, n + 1, 0, 0, 1, val));
            assert forall|w: u8, e: u32| #[trigger] entered(poly, n + 1, 0, 0, w, e) implies t@.contains_key(
                gf2_rem(poly, e),
            ) && t@[gf2_rem(poly, e)] == (w, e) by {
                lemma_entered_is_pattern(poly, n + 1, 0, 0, w, e);
                if e != val {
                    let a = choose|a: u32| a < n + 1 && e == 1u32 << a;
                    assert(entered(poly, n as int, 0, 0, w, e));
                }
            }
            assert forall|s: u32| #[trigger] t@.contains_key(s) implies entered(
                poly,
                n + 1,
                0,
                0,
                t@[s].0,
                t@[s].1,
            ) && gf2_rem(poly, t@[s].1) == s by {
                if s != r {
                    assert(before.contains_key(s));
                }
            }
        }
        n += 1;
    }
    if max_err >= 2 {
        let mut n1: u32 = 0;
        while n1 < bits
            invariant
                poly != 0,
                distinguishes(poly),
                (p.0, max_err) == code_params(poly),
                max_err >= 2,
                bits == p.0,
                bits <= 31,
                n1 <= bits,
                table_so_far(poly, t@, bits as int, n1 as int, 0),
            decreases bits - n1,
        {
            let mut n2: u32 = n1 + 1;
            proof {
                assert forall|w: u8, e: u32|
                    #![trigger entered(poly, bits as int, n1 as int, 0, w, e)]
                    #![trigger entered(poly, bits as int, n1 as int, n2 as int, w, e)]
                    entered(poly, bits as int, n1 as int, 0, w, e) == entered(
                        poly,
                        bits as int,
                        n1 as int,
                        n2 as int,
                        w,
                        e,
                    ) by {}
                assert(table_so_far(poly, t@, bits as int, n1 as int, n2 as int));
            }
            while n2 < bits
                invariant
                    poly != 0,
                    distinguishes(poly),
                    (p.0, max_err) == code_params(poly),
                    max_err >= 2,
                    bits == p.0,
                    bits <= 31,
                    n1 < n2,
                    n1 < bits,
                    n2 <= bits,
                    table_so_far(poly, t@, bits as int, n1 as int, n2 as int),
                decreases bits - n2,
            {
                let val: u32 = (1u32 << n1) | (1u32 << n2);
                let r: u32 = gf2_remainder(poly, val);
                let ghost before = t@;
                t.insert(r, (2u8, val));
                proof {
                    assert(error_pattern(poly, 2, val));
                    assert(entered(poly, bits as int, n1 as int, n2 + 1, 2, val));
                    assert forall|w: u8, e: u32| #[trigger]
                        entered(poly, bits as int, n1 as int, n2 + 1, w, e) implies t@.contains_key(
                        gf2_rem(poly, e),
                    ) && t@[gf2_rem(poly, e)] == (w, e) by {
                        lemma_entered_is_pattern(poly, bits as int, n1 as int, n2 + 1, w, e);
                        if !(w == 2 && e == val) {
                            if w == 2 {
                                let (a, b) = choose|a: u32, b: u32|
                                    a < b && b < code_params(poly).0 && (a < n1 || a == n1 && b < n2 + 1) && e == (
                                    1u32 << a) | (1u32 << b);
                                assert(a < n1 || a == n1 && b < n2);
                            }
                            assert(entered(poly, bits as int, n1 as int, n2 as int, w, e));
                        }
                    }
                    assert forall|s: u32| #[trigger] t@.contains_key(s) implies entered(
                        poly,
                        bits as int,
                        n1 as int,
                        n2 + 1,
                        t@[s].0,
                        t@[s].1,
                    ) && gf2_rem(poly, t@[s].1) == s by {
                        if s != r {
                            assert(before.contains_key(s));
                        }
                    }
                }
                n2 += 1;
            }
            proof {
                assert forall|w: u8, e: u32|
                    #![trigger entered(poly, bits as int, n1 as int, bits as int, w, e)]
                    #![trigger entered(poly, bits as int, n1 + 1, 0, w, e)]
                    entered(poly, bits as int, n1 as int, bits as int, w, e) == entered(
                        poly,
                        bits as int,
                        n1 + 1,
                        0,
                        w,
                        e,
                    ) by {}
                assert(table_so_far(poly, t@, bits as int, n1 + 1, 0));
            }
            n1 += 1;
        }
        proof {
            assert forall|w: u8, e: u32| #[trigger] error_pattern(poly, w, e) == entered(
                poly,
                bits as int,
                bits as int,
                0,
                w,
                e,
            ) by {}
        }
    } else {
        proof {
            assert forall|w: u8, e: u32| #[trigger] error_pattern(poly, w, e) == entered(
                poly,
                bits as int,
                0,
                0,
                w,
                e,
            ) by {}
        }
    }
    t
}

/// Outcome of repairing one 31-bit block.
pub struct Repair {
    /// number of bits corrected, or none if the block could not be repaired
    pub errors: Option<u8>,
    /// the data bits
    pub data: String,
    /// the check bits
    pub check: String,
}

/// Corrects a block up to the capability of its code.
///
/// There is no error count when the syndrome matches no correctable pattern.
/// That is a real detection of an uncorrectable block; the bits are then handed
/// back as they came, and a caller must treat the frame as failed.
pub fn repair(poly: u32, block: &str) -> (r: Repair)
    requires
        poly != 0,
        byte_len(block@) == 31,
        gf2_rem(poly, bit_word(block@)) != 0 ==> distinguishes(poly),
    ensures
        r.errors == corrected(poly, bit_word(block@)).0,
        r.data@ == word_bits(corrected(poly, bit_word(block@)).1).take(31 - degree(poly)),
        r.check@ == word_bits(corrected(poly, bit_word(block@)).1).skip(31 - degree(poly)),
        r.check@.len() == degree(poly) <= 31,
{
    let v: u32 = bit_string_word(block);
    let syn: u32 = gf2_remainder(poly, v);
    let mut errors: Option<u8> = Some(0u8);
    let mut fixed: u32 = v;
    if syn != 0 {
        let table = syndromes(poly);
        match table.get(&syn) {
            Some(fix) => {
                let pattern: (u8, u32) = *fix;
                proof {
                    assert(correctable(poly, v, pattern));
                    let chosen = choose|f: (u8, u32)| correctable(poly, v, f);
                    assert(correctable(poly, v, chosen));
                    assert(chosen == pattern);
                }
                errors = Some(pattern.0);
                fixed = v ^ pattern.1;
            },
            None => {
                proof {
                    assert forall|f: (u8, u32)| !correctable(poly, v, f) by {}
                }
                errors = None;
            },
        }
    }
    let split: u32 = 31 - degree_of(poly);
    let mut data: String = String::new();
    let mut check: String = String::new();
    let ghost all = word_bits(fixed);
    let mut i: u32 = 0;
    while i < 31
        invariant
            i <= 31,
            split <= 31,
            all == word_bits(fixed),
            data@ == all.take(if i < split { i as int } else { split as int }),
            check@ == (if i < split { Seq::<char>::empty() } else { all.subrange(split as int, i as int) }),
        decreases 31 - i,
    {
        let c: char = if (fixed >> (30 - i)) & 1 == 1 { '1' } else { '0' };
        proof {
            assert(all[i as int] == c);
        }
        if i < split {
            push_char(&mut data, c);
        } else {
            push_char(&mut check, c);
        }
        i += 1;
    }
    proof {
        assert(all.subrange(split as int, 31) == all.skip(split as int));
    }
    Repair { errors, data, check }
}

} // verus!
