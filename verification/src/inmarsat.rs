//! Framing of Inmarsat STD-C: convolutional code, interleaver, scrambler and
//! frame check sequence.
use vstd::prelude::*;
use vstd::arithmetic::div_mod::lemma_fundamental_div_mod_converse;
use vstd::arithmetic::power2::pow2;
use crate::bits::{field_bits, is_bits};

verus! {

/// Number of states of the rate 1/2, constraint length 7 code.
pub const NSTATES: usize = 64;

/// Generator polynomials of the code; the newest bit has weight 64.
pub const G1: u32 = 0o171;

pub const G2: u32 = 0o133;

/// Parity of the number of set bits.
pub open spec fn parity_of(x: u32) -> u8
    decreases x,
{
    if x == 0 {
        0
    } else {
        ((x % 2 + parity_of(x / 2)) % 2) as u8
    }
}

/// Shift register after the first `k` bits, started from `init`.
pub open spec fn conv_state(bits: Seq<u8>, init: u32, k: int) -> u32
    decreases k,
{
    if k <= 0 {
        init
    } else {
        (((bits[k - 1] as u32) << 6) | conv_state(bits, init, k - 1)) >> 1
    }
}

/// Output symbol `i`: the parities of the register under the two generators,
/// in turn; the second may be inverted.
pub open spec fn conv_symbol(bits: Seq<u8>, init: u32, invert: bool, i: int) -> u8 {
    let v = ((bits[i / 2] as u32) << 6) | conv_state(bits, init, i / 2);
    if i % 2 == 0 {
        parity_of(v & G1)
    } else if invert {
        (1 - parity_of(v & G2)) as u8
    } else {
        parity_of(v & G2)
    }
}

/// The coded form of a bit sequence.
pub open spec fn conv_coded(bits: Seq<u8>, init: u32, invert: bool) -> Seq<u8> {
    Seq::new(2 * bits.len(), |i: int| conv_symbol(bits, init, invert, i))
}

/// One step of division by the CCITT polynomial.
pub open spec fn ccitt_step(t: u16) -> u16 {
    if t & 0x8000 != 0 {
        (t << 1) ^ 0x1021
    } else {
        t << 1
    }
}

pub open spec fn ccitt_steps(t: u16, n: nat) -> u16
    decreases n,
{
    if n == 0 {
        t
    } else {
        ccitt_step(ccitt_steps(t, (n - 1) as nat))
    }
}

/// Check register after one more byte.
pub open spec fn crc16_byte(c: u16, b: u8) -> u16 {
    (c << 8) ^ ccitt_steps((((c >> 8) ^ (b as u16)) & 0xff) << 8, 8)
}

/// Check register after all the bytes.
pub open spec fn crc16_of(data: Seq<u8>, init: u16) -> u16
    decreases data.len(),
{
    if data.len() == 0 {
        init
    } else {
        crc16_byte(crc16_of(data.drop_last(), init), data.last())
    }
}

/// Reading a matrix that is stored by rows column by column.
pub open spec fn interleaved<T>(x: Seq<T>, rows: int, cols: int) -> Seq<T> {
    Seq::new((rows * cols) as nat, |k: int| x[(k % rows) * cols + k / rows])
}

/// Storing column by column what was read column by column.
pub open spec fn deinterleaved<T>(x: Seq<T>, rows: int, cols: int) -> Seq<T> {
    Seq::new((rows * cols) as nat, |k: int| x[(k % cols) * rows + k / cols])
}

/// Scrambler register before output bit `k`.
pub open spec fn scrambler_state(seed: u16, k: int) -> u16
    decreases k,
{
    if k <= 0 {
        seed & 0x7fff
    } else {
        let st = scrambler_state(seed, k - 1);
        ((st << 1) | scrambler_tap(st)) & 0x7fff
    }
}

pub open spec fn scrambler_tap(st: u16) -> u16 {
    ((st >> 14) ^ (st >> 13)) & 1
}

/// The scrambling sequence.
pub open spec fn scrambling(seed: u16, n: nat) -> Seq<u8> {
    Seq::new(n, |k: int| scrambler_tap(scrambler_state(seed, k)) as u8)
}

/// A bit sequence added to the scrambling sequence.
pub open spec fn scrambled(bits: Seq<u8>, seed: u16) -> Seq<u8> {
    Seq::new(bits.len(), |k: int| bits[k] ^ scrambling(seed, bits.len())[k])
}

/// Trellis state before step `t`, walking back from state zero at the end along
/// the recorded decisions.
pub open spec fn back_state(dec: Seq<[u8; 64]>, t: int) -> int
    decreases dec.len() - t,
{
    if t >= dec.len() {
        0
    } else {
        let s = back_state(dec, t + 1);
        (s % 32) * 2 + dec[t]@[s]
    }
}

/// The bits along the surviving path.
pub open spec fn path_bits(dec: Seq<[u8; 64]>) -> Seq<u8> {
    Seq::new(dec.len(), |t: int| ((back_state(dec, t + 1) / 32) % 2) as u8)
}

pub open spec fn decisions_valid(dec: Seq<[u8; 64]>) -> bool {
    forall|t: int, s: int| 0 <= t < dec.len() && 0 <= s < 64 ==> #[trigger] dec[t]@[s] <= 1
}

proof fn lemma_words(c: u16, b: u8, x: u8, st: u16)
    by (bit_vector)
    ensures
        ccitt_step(c ^ st) == ccitt_step(c) ^ ccitt_step(st),
        ((((c ^ st) >> 8) ^ ((b ^ x) as u16)) & 0xff) << 8 == ((((c >> 8) ^ (b as u16)) & 0xff) << 8) ^ ((((st >> 8) ^ (x
            as u16)) & 0xff) << 8),
        (c ^ st) << 8 == (c << 8) ^ (st << 8),
        ((((c >> 8) ^ (b as u16)) & 0xff) << 8) & 0xff == 0,
        (((c >> 8) ^ (b as u16)) & 0xff) << 8 == 0 ==> (c >> 8) as u8 == b,
        (c << 8) ^ st == 0 ==> st == c << 8,
        ((c << 8) ^ st) & 0xff == st & 0xff,
        (c << 8) & 0xff == 0,
        c << 8 == 0 ==> c & 0xff == 0,
        ((c << 8) >> 8) as u8 == c as u8,
        ((c >> 8) as u8) * 0x100 + (c as u8) == c,
        c ^ c == 0,
        (0u16 >> 8u16) ^ (b as u16) == b,
        (((0u16 >> 8u16) ^ (b as u16)) & 0xff) << 8 == (b as u16) << 8,
        0u16 << 8u16 == 0,
        0u16 ^ c == c,
        b ^ 0 == b,
        b <= 1 && x <= 1 ==> (b ^ x != b <==> x == 1) && b ^ x <= 1,
        ccitt_step(0) == 0,
        (((c >> 8) ^ ((((c >> 8) as u8)) as u16)) & 0xff) << 8 == 0,
        ((((c << 8) >> 8) ^ ((c as u8) as u16)) & 0xff) << 8 == 0,
        (c << 8) << 8 == 0,
        c ^ 0 == c,
        (b ^ x) ^ x == b,
        scrambler_tap(st) <= 1,
{
}

proof fn lemma_register(s: u32, b: u8)
    by (bit_vector)
    requires
        s < 64,
        b <= 1,
    ensures
        (64 * b + s) as u32 & 0o171 == 64 * b + 32 * ((s / 32) % 2) + 16 * ((s / 16) % 2) + 8 * ((s / 8) % 2) + s % 2,
        (64 * b + s) as u32 & 0o133 == 64 * b + 16 * ((s / 16) % 2) + 8 * ((s / 8) % 2) + 2 * ((s / 2) % 2) + s % 2,
        (((b as u32) << 6) | s) >> 1 == 32 * b + s / 2,
        ((b as u32) << 6) | s == 64 * b + s,
{
}

pub proof fn lemma_state_bound(bits: Seq<u8>, init: u32, k: int)
    requires
        is_bits(bits),
        init < 64,
        0 <= k <= bits.len(),
    ensures
        conv_state(bits, init, k) < 64,
    decreases k,
{
    if k > 0 {
        lemma_state_bound(bits, init, k - 1);
        lemma_register(conv_state(bits, init, k - 1), bits[k - 1]);
    }
}

/// Scrambling twice with the same seed gives the bits back.
pub proof fn law_scrambling_is_an_involution(bits: Seq<u8>, seed: u16)
    ensures
        scrambled(scrambled(bits, seed), seed) == bits,
{
    assert forall|k: int| 0 <= k < bits.len() implies scrambled(scrambled(bits, seed), seed)[k] == bits[k] by {
        lemma_words(0, bits[k], scrambling(seed, bits.len())[k], 0);
    }
    assert(scrambled(scrambled(bits, seed), seed) =~= bits);
}

/// The scrambling sequence follows x^15 + x^14 + 1: each bit is the sum over GF(2) of
/// the ones fifteen and fourteen places before it. In front of the sequence stand the
/// fifteen low bits of the seed, the most significant first.
pub proof fn law_scrambling_recurrence(seed: u16, n: nat, k: int)
    requires
        0 <= k < n,
    ensures
        scrambling(seed, n).len() == n,
        scrambling(seed, n)[k] == term_before(seed, n, k - 15) ^ term_before(seed, n, k - 14),
        scrambling(seed, n)[k] <= 1,
{
    lemma_scrambler_stage(seed, n, k, 14);
    lemma_scrambler_stage(seed, n, k, 13);
    lemma_stages(seed, scrambler_state(seed, k), 14);
    lemma_stages(seed, scrambler_state(seed, k), 13);
}

/// Term `k` of the scrambling sequence; before its start, of the seed.
pub open spec fn term_before(seed: u16, n: nat, k: int) -> u8 {
    if k >= 0 {
        scrambling(seed, n)[k]
    } else {
        field_bits(seed as int, 15)[15 + k]
    }
}

proof fn lemma_stages(seed: u16, st: u16, j: u16)
    by (bit_vector)
    requires
        j < 15,
    ensures
        ((seed & 0x7fff) >> j) & 1 == (seed >> j) & 1,
        (((st << 1) | scrambler_tap(st)) & 0x7fff) & 1 == scrambler_tap(st),
        ((((st << 1) | scrambler_tap(st)) & 0x7fff) >> 0u16) & 1 == scrambler_tap(st),
        j > 0 ==> ((((st << 1) | scrambler_tap(st)) & 0x7fff) >> j) & 1 == (st >> ((j - 1) as u16)) & 1,
        scrambler_tap(st) as u8 == (((st >> 14) & 1) as u8) ^ (((st >> 13) & 1) as u8),
        scrambler_tap(st) <= 1,
        (((seed & 0x7fff) >> j) & 1) as u8 == (seed >> j) & 1,
        (seed >> j) & 1 == (seed >> j) % 2,
{
}

/// Stage `j` of the register before bit `k` holds the term `j + 1` places before it.
proof fn lemma_scrambler_stage(seed: u16, n: nat, k: int, j: int)
    requires
        0 <= k < n,
        0 <= j < 15,
    ensures
        ((scrambler_state(seed, k) >> (j as u16)) & 1) as u8 == term_before(seed, n, k - 1 - j),
    decreases k,
{
    if k == 0 {
        lemma_stages(seed, 0, j as u16);
        vstd::bits::lemma_u16_shr_is_div(seed, j as u16);
        assert(field_bits(seed as int, 15)[14 - j] == ((seed as int / (pow2(j as nat) as int)) % 2) as u8);
    } else {
        let st = scrambler_state(seed, k - 1);
        lemma_stages(seed, st, j as u16);
        if j > 0 {
            lemma_scrambler_stage(seed, n, k - 1, j - 1);
        }
    }
}

/// What is scrambled differs from the bits by the scrambling sequence.
pub proof fn law_scrambled_bits(bits: Seq<u8>, seed: u16, k: int)
    requires
        is_bits(bits),
        0 <= k < bits.len(),
    ensures
        scrambled(bits, seed).len() == bits.len(),
        scrambled(bits, seed)[k] != bits[k] <==> scrambling(seed, bits.len())[k] == 1,
        scrambled(bits, seed)[k] <= 1,
{
    law_scrambling_recurrence(seed, bits.len(), k);
    let s = scrambling(seed, bits.len())[k];
    assert(bits[k] <= 1);
    let b = bits[k];
    lemma_words(0, b, s, 0);
}

/// Bit `i` of a message, with zeros before it.
pub open spec fn bit_or_zero(bits: Seq<u8>, i: int) -> int {
    if i >= 0 {
        bits[i] as int
    } else {
        0
    }
}

/// Each bit of a message gives two symbols. The first is the sum of the bit and those 1, 2, 3
/// and 6 before it, the second of the bit and those 2, 3, 5 and 6 before it; inverted, the
/// second is the other value. There are zeros before the message.
pub proof fn law_symbols_of_a_bit(bits: Seq<u8>, invert: bool, i: int)
    requires
        is_bits(bits),
        0 <= i < bits.len(),
    ensures
        conv_coded(bits, 0, invert).len() == 2 * bits.len(),
        conv_coded(bits, 0, invert)[2 * i] == (bit_or_zero(bits, i) + bit_or_zero(bits, i - 1) + bit_or_zero(bits, i - 2)
            + bit_or_zero(bits, i - 3) + bit_or_zero(bits, i - 6)) % 2,
        conv_coded(bits, 0, invert)[2 * i + 1] == (bit_or_zero(bits, i) + bit_or_zero(bits, i - 2) + bit_or_zero(
            bits,
            i - 3,
        ) + bit_or_zero(bits, i - 5) + bit_or_zero(bits, i - 6) + (if invert {
            1int
        } else {
            0
        })) % 2,
{
    lemma_state_bits(bits, i);
    lemma_state_bound(bits, 0, i);
    let s = conv_state(bits, 0, i);
    let b = bits[i];
    assert(b <= 1);
    lemma_register(s, b);
    assert((2 * i) / 2 == i && (2 * i + 1) / 2 == i);
    assert((2 * i) % 2 == 0 && (2 * i + 1) % 2 == 1);
    let v = ((b as u32) << 6) | s;
    assert(v == 64 * b + s);
    lemma_two_sums(
        v,
        s as int,
        b as int,
        bit_or_zero(bits, i - 1),
        bit_or_zero(bits, i - 2),
        bit_or_zero(bits, i - 3),
        bit_or_zero(bits, i - 4),
        bit_or_zero(bits, i - 5),
        bit_or_zero(bits, i - 6),
    );
}

/// The register holds the six bits before, the last of them on top.
proof fn lemma_state_bits(bits: Seq<u8>, k: int)
    requires
        is_bits(bits),
        0 <= k <= bits.len(),
    ensures
        conv_state(bits, 0, k) == 32 * bit_or_zero(bits, k - 1) + 16 * bit_or_zero(bits, k - 2) + 8 * bit_or_zero(
            bits,
            k - 3,
        ) + 4 * bit_or_zero(bits, k - 4) + 2 * bit_or_zero(bits, k - 5) + bit_or_zero(bits, k - 6),
        forall|j: int| j < k ==> 0 <= #[trigger] bit_or_zero(bits, j) <= 1,
    decreases k,
{
    assert forall|j: int| j < k implies 0 <= #[trigger] bit_or_zero(bits, j) <= 1 by {
        if j >= 0 {
            assert(bits[j] <= 1);
        }
    }
    if k > 0 {
        lemma_state_bits(bits, k - 1);
        lemma_state_bound(bits, 0, k - 1);
        assert(bits[k - 1] <= 1);
        lemma_register(conv_state(bits, 0, k - 1), bits[k - 1]);
        assert(bit_or_zero(bits, k - 7) <= 1);
    }
}

proof fn lemma_parity_of_bits(x: u32, b: int, c: int, d: int, e: int, f: int, g: int, h: int)
    requires
        0 <= b <= 1,
        0 <= c <= 1,
        0 <= d <= 1,
        0 <= e <= 1,
        0 <= f <= 1,
        0 <= g <= 1,
        0 <= h <= 1,
        x == 64 * b + 32 * c + 16 * d + 8 * e + 4 * f + 2 * g + h,
    ensures
        parity_of(x) == (b + c + d + e + f + g + h) % 2,
{
    let x2 = 2 * b + c;
    let x3 = 2 * x2 + d;
    let x4 = 2 * x3 + e;
    let x5 = 2 * x4 + f;
    let x6 = 2 * x5 + g;
    lemma_parity_unit(0, b);
    lemma_parity_unit(b as u32, c);
    assert(parity_of(x2 as u32) == (b + c) % 2);
    lemma_parity_unit(x2 as u32, d);
    assert(parity_of(x3 as u32) == (b + c + d) % 2);
    lemma_parity_unit(x3 as u32, e);
    assert(parity_of(x4 as u32) == (b + c + d + e) % 2);
    lemma_parity_unit(x4 as u32, f);
    assert(parity_of(x5 as u32) == (b + c + d + e + f) % 2);
    lemma_parity_unit(x5 as u32, g);
    assert(parity_of(x6 as u32) == (b + c + d + e + f + g) % 2);
    lemma_parity_unit(x6 as u32, h);
}

proof fn lemma_digits(x: int)
    requires
        0 <= x < 64,
    ensures
        x == 32 * (x / 32) + 16 * ((x / 16) % 2) + 8 * ((x / 8) % 2) + 4 * ((x / 4) % 2) + 2 * ((x / 2) % 2) + x % 2,
        0 <= x / 32 <= 1,
{
    let (h, q, e, s, t) = (x / 2, x / 4, x / 8, x / 16, x / 32);
    assert(x == 2 * h + x % 2);
    assert(h / 2 == q && h == 2 * q + h % 2);
    assert(q / 2 == e && q == 2 * e + q % 2);
    assert(e / 2 == s && e == 2 * s + e % 2);
    assert(s / 2 == t && s == 2 * t + s % 2);
}

proof fn lemma_branch(ns: int, which: int, v: u32)
    requires
        0 <= ns < 64,
        0 <= which <= 1,
        v == 64 * (ns / 32) + (ns % 32) * 2 + which,
    ensures
        parity_of(v & G1) == (ns / 32 + (ns / 16) % 2 + (ns / 8) % 2 + (ns / 4) % 2 + which) % 2,
        parity_of(v & G2) == (ns / 32 + (ns / 8) % 2 + (ns / 4) % 2 + ns % 2 + which) % 2,
{
    let (b, c, d, e, f, g) = (ns / 32, (ns / 16) % 2, (ns / 8) % 2, (ns / 4) % 2, (ns / 2) % 2, ns % 2);
    lemma_digits(ns);
    let s = (ns % 32) * 2 + which;
    assert(ns % 32 == ns - 32 * b);
    assert(s == 32 * c + 16 * d + 8 * e + 4 * f + 2 * g + which);
    lemma_two_sums(v, s, b, c, d, e, f, g, which);
}

/// The sums of the bits of a register of seven that the two generators pick.
proof fn lemma_two_sums(v: u32, s: int, b: int, c: int, d: int, e: int, f: int, g: int, h: int)
    requires
        0 <= b <= 1,
        0 <= c <= 1,
        0 <= d <= 1,
        0 <= e <= 1,
        0 <= f <= 1,
        0 <= g <= 1,
        0 <= h <= 1,
        s == 32 * c + 16 * d + 8 * e + 4 * f + 2 * g + h,
        v == 64 * b + s,
    ensures
        parity_of(v & G1) == (b + c + d + e + h) % 2,
        parity_of(v & G2) == (b + d + e + g + h) % 2,
{
    lemma_low_digit(16 * c + 8 * d + 4 * e + 2 * f + g, h);
    lemma_low_digit(8 * c + 4 * d + 2 * e + f, g);
    lemma_low_digit(4 * c + 2 * d + e, f);
    lemma_low_digit(2 * c + d, e);
    lemma_low_digit(c, d);
    lemma_fundamental_div_mod_converse(s, 8, 4 * c + 2 * d + e, 4 * f + 2 * g + h);
    lemma_fundamental_div_mod_converse(s, 16, 2 * c + d, 8 * e + 4 * f + 2 * g + h);
    lemma_fundamental_div_mod_converse(s, 32, c, 16 * d + 8 * e + 4 * f + 2 * g + h);
    lemma_register(s as u32, b as u8);
    lemma_parity_of_bits(v & G1, b, c, d, e, 0, 0, h);
    lemma_parity_of_bits(v & G2, b, 0, d, e, 0, g, h);
}

proof fn lemma_low_digit(q: int, r: int)
    requires
        0 <= r <= 1,
    ensures
        (2 * q + r) / 2 == q,
        (2 * q + r) % 2 == r,
{
}

proof fn lemma_parity_unit(x: u32, b: int)
    requires
        x < 0x8000_0000,
        0 <= b <= 1,
    ensures
        parity_of((2 * x + b) as u32) == (b + parity_of(x)) % 2,
{
    if 2 * x + b == 0 {
        assert(parity_of(0) == 0);
    } else {
        let y = (2 * x + b) as u32;
        assert(y % 2 == b && y / 2 == x);
    }
}

/// Data followed by its own check sequence, high byte first, checks to zero.
pub proof fn law_appended_crc_checks(data: Seq<u8>, init: u16)
    ensures
        crc16_of(data.push((crc16_of(data, init) >> 8) as u8).push(crc16_of(data, init) as u8), init) == 0,
{
    let c = crc16_of(data, init);
    let one = data.push((c >> 8) as u8);
    let two = one.push(c as u8);
    assert(one.drop_last() == data);
    assert(two.drop_last() == one);
    lemma_words(c, 0, 0, 0);
    lemma_words(c << 8, 0, 0, 0);
    lemma_words((c << 8) << 8, 0, 0, 0);
    assert(ccitt_steps(0, 8) == 0) by {
        reveal_with_fuel(ccitt_steps, 9);
    }
    assert(crc16_of(one, init) == c << 8);
    assert(crc16_byte(c << 8, c as u8) == 0);
}

proof fn lemma_matrix_index(rows: int, cols: int, r: int, c: int)
    requires
        0 <= r < rows,
        0 <= c < cols,
    ensures
        0 <= c * rows + r < rows * cols,
        0 <= r * cols + c < rows * cols,
        (c * rows + r) % rows == r,
        (c * rows + r) / rows == c,
        (r * cols + c) % cols == c,
        (r * cols + c) / cols == r,
{
    assert(0 <= c * rows + r < rows * cols) by (nonlinear_arith)
        requires
            0 <= r < rows,
            0 <= c < cols,
    ;
    assert(0 <= r * cols + c < rows * cols) by (nonlinear_arith)
        requires
            0 <= r < rows,
            0 <= c < cols,
    ;
    assert(c * rows == rows * c) by (nonlinear_arith);
    assert(r * cols == cols * r) by (nonlinear_arith);
    vstd::arithmetic::div_mod::lemma_fundamental_div_mod_converse(c * rows + r, rows, c, r);
    vstd::arithmetic::div_mod::lemma_fundamental_div_mod_converse(r * cols + c, cols, r, c);
}

/// The bytes of two messages added place by place.
pub open spec fn bytes_added(a: Seq<u8>, b: Seq<u8>) -> Seq<u8> {
    Seq::new(a.len(), |i: int| a[i] ^ b[i])
}

proof fn lemma_steps_of_a_sum(x: u16, y: u16, n: nat)
    ensures
        ccitt_steps(x ^ y, n) == ccitt_steps(x, n) ^ ccitt_steps(y, n),
    decreases n,
{
    if n > 0 {
        lemma_steps_of_a_sum(x, y, (n - 1) as nat);
        lemma_words(ccitt_steps(x, (n - 1) as nat), 0, 0, ccitt_steps(y, (n - 1) as nat));
    }
}

/// The check value of a sum of two messages, from the sum of two starts, is the sum of their
/// check values.
pub proof fn law_crc_of_a_sum(a: Seq<u8>, b: Seq<u8>, init: u16, other: u16)
    requires
        a.len() == b.len(),
    ensures
        crc16_of(bytes_added(a, b), init ^ other) == crc16_of(a, init) ^ crc16_of(b, other),
    decreases a.len(),
{
    if a.len() > 0 {
        law_crc_of_a_sum(a.drop_last(), b.drop_last(), init, other);
        assert(bytes_added(a, b).drop_last() =~= bytes_added(a.drop_last(), b.drop_last()));
        let (c, d) = (crc16_of(a.drop_last(), init), crc16_of(b.drop_last(), other));
        let (p, q) = ((((c >> 8) ^ (a.last() as u16)) & 0xff) << 8, (((d >> 8) ^ (b.last() as u16)) & 0xff) << 8);
        lemma_words(c, a.last(), b.last(), d);
        lemma_steps_of_a_sum(p, q, 8);
        lemma_four_terms(c << 8, ccitt_steps(p, 8), d << 8, ccitt_steps(q, 8));
    }
}

proof fn lemma_four_terms(p: u16, q: u16, r: u16, s: u16)
    by (bit_vector)
    ensures
        (p ^ r) ^ (q ^ s) == (p ^ q) ^ (r ^ s),
        (p ^ q) ^ q == p,
{
}

proof fn lemma_byte_steps(s: u32, r0: u16, r1: u16, r2: u16, r3: u16, r4: u16, r5: u16, r6: u16, r7: u16, r8: u16)
    by (bit_vector)
    requires
        s < 8,
        r1 == ccitt_step(r0),
        r2 == ccitt_step(r1),
        r3 == ccitt_step(r2),
        r4 == ccitt_step(r3),
        r5 == ccitt_step(r4),
        r6 == ccitt_step(r5),
        r7 == ccitt_step(r6),
        r8 == ccitt_step(r7),
    ensures
        r0 & 0xff == 0 && r8 & 0xff == 0 ==> r0 == 0,
        r0 == ((((0x1_1021u32 << s) >> 16) as u8) as u16) << 8 ==> (r8 >> 8) as u8 == ((0x1_1021u32 << s) >> 8) as u8
            && r8 as u8 == (0x1_1021u32 << s) as u8,
{
}

proof fn lemma_eight_steps(s: u32, r0: u16)
    requires
        s < 8,
    ensures
        r0 & 0xff == 0 && ccitt_steps(r0, 8) & 0xff == 0 ==> r0 == 0,
        r0 == ((((0x1_1021u32 << s) >> 16) as u8) as u16) << 8 ==> (ccitt_steps(r0, 8) >> 8) as u8 == ((0x1_1021u32 << s)
            >> 8) as u8 && ccitt_steps(r0, 8) as u8 == (0x1_1021u32 << s) as u8,
{
    reveal_with_fuel(ccitt_steps, 9);
    lemma_byte_steps(
        s,
        r0,
        ccitt_steps(r0, 1),
        ccitt_steps(r0, 2),
        ccitt_steps(r0, 3),
        ccitt_steps(r0, 4),
        ccitt_steps(r0, 5),
        ccitt_steps(r0, 6),
        ccitt_steps(r0, 7),
        ccitt_steps(r0, 8),
    );
}

proof fn lemma_crc_of_zeros(data: Seq<u8>, zeros: Seq<u8>, init: u16)
    requires
        crc16_of(data, init) == 0,
        forall|i: int| 0 <= i < zeros.len() ==> zeros[i] == 0,
    ensures
        crc16_of(data + zeros, init) == 0,
    decreases zeros.len(),
{
    if zeros.len() == 0 {
        assert(data + zeros =~= data);
    } else {
        lemma_crc_of_zeros(data, zeros.drop_last(), init);
        assert((data + zeros).drop_last() =~= data + zeros.drop_last());
        lemma_words(0, 0, 0, 0);
        assert(ccitt_steps(0, 8) == 0) by {
            reveal_with_fuel(ccitt_steps, 9);
        }
    }
}

/// The check is division by x^16 + x^12 + x^5 + 1: adding the bits of 11021 to a message, at
/// any bit, does not change the check value.
pub proof fn law_generator_multiples_do_not_count(data: Seq<u8>, init: u16, at: int, s: u32)
    requires
        s < 8,
        0 <= at,
        at + 3 <= data.len(),
    ensures
        ({
            let g = 0x1_1021u32 << s;
            let pattern = Seq::new(
                data.len(),
                |i: int|
                    if i == at {
                        (g >> 16) as u8
                    } else if i == at + 1 {
                        (g >> 8) as u8
                    } else if i == at + 2 {
                        g as u8
                    } else {
                        0u8
                    },
            );
            crc16_of(bytes_added(data, pattern), init) == crc16_of(data, init)
        }),
{
    let g = 0x1_1021u32 << s;
    let pattern = Seq::new(
        data.len(),
        |i: int|
            if i == at {
                (g >> 16) as u8
            } else if i == at + 1 {
                (g >> 8) as u8
            } else if i == at + 2 {
                g as u8
            } else {
                0u8
            },
    );
    let nought = Seq::new(at as nat, |i: int| 0u8);
    lemma_crc_of_zeros(Seq::empty(), nought, 0);
    assert(Seq::<u8>::empty() + nought =~= nought);
    let top = (g >> 16) as u8;
    let one = nought.push(top);
    assert(one.drop_last() =~= nought);
    lemma_words(0, top, 0, 0);
    lemma_words(ccitt_steps((top as u16) << 8, 8), 0, 0, 0);
    lemma_eight_steps(s, (top as u16) << 8);
    assert(crc16_of(one, 0) == ccitt_steps((top as u16) << 8, 8));
    law_appended_crc_checks(one, 0);
    let three = one.push((g >> 8) as u8).push(g as u8);
    let zeros = Seq::new((data.len() - at - 3) as nat, |i: int| 0u8);
    lemma_crc_of_zeros(three, zeros, 0);
    assert(three + zeros =~= pattern);
    law_crc_of_a_sum(data, pattern, init, 0);
    lemma_words(init, 0, 0, 0);
    lemma_words(crc16_of(data, init), 0, 0, 0);
}

/// Two bytes behind a message check to zero together with it exactly if they are its check
/// value, the high byte first.
pub proof fn law_only_its_own_crc_checks(data: Seq<u8>, init: u16, hi: u8, lo: u8)
    ensures
        crc16_of(data.push(hi).push(lo), init) == 0 <==> 0x100 * hi + lo == crc16_of(data, init),
{
    let c = crc16_of(data, init);
    let one = data.push(hi);
    let two = one.push(lo);
    assert(one.drop_last() =~= data);
    assert(two.drop_last() =~= one);
    let d = crc16_of(one, init);
    law_appended_crc_checks(data, init);
    lemma_words(c, 0, 0, 0);
    if 0x100 * hi + lo == c {
        assert(hi == (c >> 8) as u8 && lo == c as u8);
    }
    if crc16_of(two, init) == 0 {
        let y = (((d >> 8) ^ (lo as u16)) & 0xff) << 8;
        lemma_words(d, lo, 0, ccitt_steps(y, 8));
        lemma_eight_steps(0, y);
        assert(y == 0);
        assert(d << 8 == 0) by {
            reveal_with_fuel(ccitt_steps, 9);
            lemma_words(0, 0, 0, 0);
        }
        let x = (((c >> 8) ^ (hi as u16)) & 0xff) << 8;
        lemma_words(c, hi, 0, ccitt_steps(x, 8));
        lemma_eight_steps(0, x);
        assert(x == 0);
        assert(d == c << 8) by {
            reveal_with_fuel(ccitt_steps, 9);
            lemma_words(0, 0, 0, 0);
            lemma_words(c << 8, 0, 0, 0);
        }
        assert((d >> 8) as u8 == c as u8);
    }
}

/// Starting from a value is adding its two bytes to the first two of the message.
pub proof fn law_start_counts_as_two_bytes(data: Seq<u8>, init: u16)
    requires
        data.len() >= 2,
    ensures
        crc16_of(data, init) == crc16_of(
            data.update(0, data[0] ^ ((init >> 8) as u8)).update(1, data[1] ^ (init as u8)),
            0,
        ),
{
    let other = data.update(0, data[0] ^ ((init >> 8) as u8)).update(1, data[1] ^ (init as u8));
    let two = Seq::<u8>::empty().push((init >> 8) as u8).push(init as u8);
    law_appended_crc_checks(Seq::empty(), init);
    let zeros = Seq::new((data.len() - 2) as nat, |i: int| 0u8);
    lemma_crc_of_zeros(two, zeros, init);
    let pattern = two + zeros;
    assert forall|i: int| 0 <= i < data.len() implies bytes_added(other, pattern)[i] == data[i] by {
        lemma_words(0, data[i], pattern[i], 0);
        lemma_words(0, data[i], 0, 0);
    }
    assert(bytes_added(other, pattern) =~= data);
    law_crc_of_a_sum(other, pattern, 0, init);
    lemma_words(init, 0, 0, 0);
    lemma_words(crc16_of(other, 0), 0, 0, 0);
}

/// Interleaving writes row after row and sends column after column: the symbol of row `r` and
/// column `c` stands at place `r * cols + c` before and at `c * rows + r` after.
pub proof fn law_interleaver_places<T>(x: Seq<T>, rows: int, cols: int, r: int, c: int)
    requires
        0 <= r < rows,
        0 <= c < cols,
    ensures
        interleaved(x, rows, cols)[c * rows + r] == x[r * cols + c],
        deinterleaved(x, rows, cols)[r * cols + c] == x[c * rows + r],
        interleaved(x, rows, cols).len() == rows * cols,
        deinterleaved(x, rows, cols).len() == rows * cols,
{
    lemma_matrix_index(rows, cols, r, c);
}

proof fn lemma_matrix_split(k: int, rows: int, cols: int)
    requires
        0 < rows,
        0 < cols,
        0 <= k < rows * cols,
    ensures
        0 <= k % rows < rows,
        0 <= k / rows < cols,
        k == (k / rows) * rows + k % rows,
{
    vstd::arithmetic::div_mod::lemma_fundamental_div_mod(k, rows);
    vstd::arithmetic::div_mod::lemma_mod_bound(k, rows);
    assert(0 <= k / rows < cols) by (nonlinear_arith)
        requires
            k == rows * (k / rows) + k % rows,
            0 <= k % rows < rows,
            0 <= k < rows * cols,
            0 < rows,
    ;
    assert(rows * (k / rows) == (k / rows) * rows) by (nonlinear_arith);
}

/// De-interleaving undoes interleaving.
pub proof fn law_interleaver_round_trips<T>(x: Seq<T>, rows: int, cols: int)
    requires
        0 < rows,
        0 < cols,
        x.len() == rows * cols,
    ensures
        deinterleaved(interleaved(x, rows, cols), rows, cols) == x,
        interleaved(deinterleaved(x, rows, cols), rows, cols) == x,
{
    assert(rows * cols == cols * rows) by (nonlinear_arith);
    assert forall|k: int| 0 <= k < x.len() implies deinterleaved(
        interleaved(x, rows, cols),
        rows,
        cols,
    )[k] == x[k] by {
        lemma_matrix_split(k, cols, rows);
        lemma_matrix_index(rows, cols, k / cols, k % cols);
    }
    assert forall|k: int| 0 <= k < x.len() implies interleaved(
        deinterleaved(x, rows, cols),
        rows,
        cols,
    )[k] == x[k] by {
        lemma_matrix_split(k, rows, cols);
        lemma_matrix_index(rows, cols, k % rows, k / rows);
    }
    assert(deinterleaved(interleaved(x, rows, cols), rows, cols) =~= x);
    assert(interleaved(deinterleaved(x, rows, cols), rows, cols) =~= x);
}

proof fn lemma_back_state(bits: Seq<u8>, dec: Seq<[u8; 64]>, t: int)
    requires
        is_bits(bits),
        dec.len() == bits.len(),
        conv_state(bits, 0, bits.len() as int) == 0,
        forall|k: int|
            0 <= k < bits.len() ==> (#[trigger] dec[k])@[conv_state(bits, 0, k + 1) as int] == conv_state(bits, 0, k)
                % 2,
        0 <= t <= bits.len(),
    ensures
        back_state(dec, t) == conv_state(bits, 0, t),
    decreases bits.len() - t,
{
    if t < bits.len() {
        lemma_back_state(bits, dec, t + 1);
        lemma_state_bound(bits, 0, t);
        lemma_register(conv_state(bits, 0, t), bits[t]);
        assert(dec[t]@[conv_state(bits, 0, t + 1) as int] == conv_state(bits, 0, t) % 2);
    }
}

/// If every decision along the path of a message that ends in state zero names
/// the state the encoder came from, walking back gives the message.
pub proof fn law_traceback_recovers_the_message(bits: Seq<u8>, dec: Seq<[u8; 64]>)
    requires
        is_bits(bits),
        dec.len() == bits.len(),
        conv_state(bits, 0, bits.len() as int) == 0,
        forall|k: int|
            0 <= k < bits.len() ==> (#[trigger] dec[k])@[conv_state(bits, 0, k + 1) as int] == conv_state(bits, 0, k)
                % 2,
    ensures
        path_bits(dec) == bits,
{
    assert forall|t: int| 0 <= t < bits.len() implies path_bits(dec)[t] == bits[t] by {
        lemma_back_state(bits, dec, t + 1);
        lemma_state_bound(bits, 0, t);
        lemma_register(conv_state(bits, 0, t), bits[t]);
        assert(bits[t] <= 1);
    }
    assert(path_bits(dec) =~= bits);
}

/// Six zero bits bring the encoder back to state zero, whatever came before.
pub proof fn law_zero_tail_clears_the_register(bits: Seq<u8>)
    requires
        is_bits(bits),
        bits.len() >= 6,
        forall|i: int| bits.len() - 6 <= i < bits.len() ==> #[trigger] bits[i] == 0,
    ensures
        conv_state(bits, 0, bits.len() as int) == 0,
{
    let n = bits.len() as int;
    lemma_state_bound(bits, 0, n - 6);
    lemma_tail_step(bits, n - 6);
    lemma_tail_step(bits, n - 5);
    lemma_tail_step(bits, n - 4);
    lemma_tail_step(bits, n - 3);
    lemma_tail_step(bits, n - 2);
    lemma_tail_step(bits, n - 1);
}

proof fn lemma_tail_step(bits: Seq<u8>, k: int)
    requires
        is_bits(bits),
        0 <= k < bits.len(),
        bits[k] == 0,
    ensures
        conv_state(bits, 0, k + 1) == conv_state(bits, 0, k) / 2,
        conv_state(bits, 0, k) < 64,
{
    lemma_state_bound(bits, 0, k);
    lemma_register(conv_state(bits, 0, k), bits[k]);
}

/// Parity of the number of set bits.
pub fn parity(x: u32) -> (p: u8)
    ensures
        p == parity_of(x),
        p <= 1,
{
    let mut v: u32 = x;
    let mut p: u8 = 0;
    while v > 0
        invariant
            p <= 1,
            parity_of(x) == (p + parity_of(v)) % 2,
        decreases v,
    {
        p = ((p as u32 + v % 2) % 2) as u8;
        v = v / 2;
    }
    p
}

/// CRC-16 with the CCITT polynomial, most significant bit first.
pub fn crc16(data: &[u8], init: u16) -> (c: u16)
    ensures
        c == crc16_of(data@, init),
{
    let mut c: u16 = init;
    let mut i: usize = 0;
    while i < data.len()
        invariant
            i <= data@.len(),
            c == crc16_of(data@.take(i as int), init),
        decreases data@.len() - i,
    {
        assert(data@.take(i + 1).drop_last() == data@.take(i as int));
        let start: u16 = (((c >> 8) ^ (data[i] as u16)) & 0xff) << 8;
        let mut t: u16 = start;
        let mut k: u8 = 0;
        while k < 8
            invariant
                k <= 8,
                t == ccitt_steps(start, k as nat),
            decreases 8 - k,
        {
            t = if t & 0x8000 != 0 { (t << 1) ^ 0x1021 } else { t << 1 };
            k += 1;
        }
        c = (c << 8) ^ t;
        i += 1;
    }
    assert(data@.take(data@.len() as int) == data@);
    c
}

/// Rate 1/2 convolutional encoder, started from a cleared register.
pub fn conv_encode(bits: &[u8]) -> (out: Vec<u8>)
    requires
        is_bits(bits@),
    ensures
        out@ == conv_coded(bits@, 0, false),
{
    let mut s: u32 = 0;
    let mut out: Vec<u8> = Vec::new();
    let mut i: usize = 0;
    while i < bits.len()
        invariant
            is_bits(bits@),
            i <= bits@.len(),
            s == conv_state(bits@, 0, i as int),
            out@ == conv_coded(bits@, 0, false).take(2 * i),
        decreases bits@.len() - i,
    {
        let v: u32 = ((bits[i] as u32) << 6) | s;
        let ghost all = conv_coded(bits@, 0, false);
        out.push(parity(v & G1));
        out.push(parity(v & G2));
        s = v >> 1;
        assert(all[2 * i] == parity_of(v & G1));
        assert(all[2 * i + 1] == parity_of(v & G2));
        assert(out@ =~= all.take(2 * (i + 1)));
        i += 1;
    }
    assert(conv_coded(bits@, 0, false).take(2 * bits@.len() as int) =~= conv_coded(bits@, 0, false));
    out
}

/// Symbols, as signs, that the encoder sends on the way into state `ns` from its
/// predecessor `which` (0 or 1).
pub fn trans_out(ns: usize, which: usize) -> (r: (i8, i8))
    requires
        ns < 64,
        which <= 1,
    ensures
        ({
            let v = (64 * (ns / 32) + (ns % 32) * 2 + which) as u32;
            &&& r.0 == 1 - 2 * parity_of(v & G1)
            &&& r.1 == 1 - 2 * parity_of(v & G2)
        }),
        r.0 == 1 - 2 * ((ns / 32 + (ns / 16) % 2 + (ns / 8) % 2 + (ns / 4) % 2 + which) % 2),
        r.1 == 1 - 2 * ((ns / 32 + (ns / 8) % 2 + (ns / 4) % 2 + ns % 2 + which) % 2),
{
    let bit: u32 = (ns / 32) as u32;
    let pred: u32 = ((ns % 32) * 2 + which) as u32;
    proof {
        lemma_register(pred, bit as u8);
    }
    let v: u32 = (bit << 6) | pred;
    proof {
        lemma_branch(ns as int, which as int, v);
    }
    (1 - 2 * (parity(v & G1) as i8), 1 - 2 * (parity(v & G2) as i8))
}

/// Walks back from state zero along the decisions of each step and state.
pub fn traceback(dec: &[[u8; 64]]) -> (bits: Vec<u8>)
    requires
        decisions_valid(dec@),
    ensures
        bits@ == path_bits(dec@),
{
    let n: usize = dec.len();
    let mut bits: Vec<u8> = Vec::new();
    let mut i: usize = 0;
    while i < n
        invariant
            i <= n,
            bits@.len() == i,
        decreases n - i,
    {
        bits.push(0);
        i += 1;
    }
    let mut s: usize = 0;
    let mut t: usize = n;
    while t > 0
        invariant
            decisions_valid(dec@),
            n == dec@.len(),
            t <= n,
            bits@.len() == n,
            s < 64,
            s == back_state(dec@, t as int),
            forall|k: int| t <= k < n ==> #[trigger] bits@[k] == path_bits(dec@)[k],
        decreases t,
    {
        t -= 1;
        bits.set(t, ((s / 32) % 2) as u8);
        let row: [u8; 64] = dec[t];
        proof {
            assert(dec@[t as int]@[s as int] <= 1);
        }
        s = (s % 32) * 2 + row[s] as usize;
    }
    assert(bits@ =~= path_bits(dec@));
    bits
}

/// Reads a matrix that is stored by rows column by column.
pub fn interleave<T: Copy>(x: &[T], rows: usize, cols: usize) -> (out: Vec<T>)
    requires
        rows * cols <= x@.len(),
    ensures
        out@ == interleaved(x@, rows as int, cols as int),
{
    let len: usize = x.len();
    let mut out: Vec<T> = Vec::new();
    if rows == 0 || cols == 0 {
        proof {
            assert(rows * cols == 0) by (nonlinear_arith)
                requires
                    rows == 0 || cols == 0,
            ;
            assert(out@ =~= interleaved(x@, rows as int, cols as int));
        }
        return out;
    }
    let mut c: usize = 0;
    while c < cols
        invariant
            len == x@.len(),
            rows * cols <= len,
            0 < rows,
            c <= cols,
            out@.len() == c * rows,
            forall|k: int| 0 <= k < out@.len() ==> #[trigger] out@[k] == interleaved(x@, rows as int, cols as int)[k],
        decreases cols - c,
    {
        let mut r: usize = 0;
        while r < rows
            invariant
                len == x@.len(),
                rows * cols <= len,
                0 < rows,
                c < cols,
                r <= rows,
                out@.len() == c * rows + r,
                forall|k: int|
                    0 <= k < out@.len() ==> #[trigger] out@[k] == interleaved(x@, rows as int, cols as int)[k],
            decreases rows - r,
        {
            proof {
                lemma_matrix_index(rows as int, cols as int, r as int, c as int);
                assert(0 <= r * cols) by (nonlinear_arith);
            }
            out.push(x[r * cols + c]);
            r += 1;
        }
        assert((c + 1) * rows == c * rows + rows) by (nonlinear_arith);
        c += 1;
    }
    assert(cols * rows == rows * cols) by (nonlinear_arith);
    assert(out@ =~= interleaved(x@, rows as int, cols as int));
    out
}

/// Stores by rows what was read column by column.
pub fn deinterleave<T: Copy>(x: &[T], rows: usize, cols: usize) -> (out: Vec<T>)
    requires
        0 < x@.len(),
        rows * cols <= x@.len(),
    ensures
        out@ == deinterleaved(x@, rows as int, cols as int),
{
    assert(cols * rows == rows * cols) by (nonlinear_arith);
    let out: Vec<T> = interleave(x, cols, rows);
    assert(out@ =~= deinterleaved(x@, rows as int, cols as int));
    out
}

/// The scrambling sequence of a 15-bit register.
pub fn scrambler_seq(n: usize, seed: u16) -> (out: Vec<u8>)
    ensures
        out@ == scrambling(seed, n as nat),
{
    let mut out: Vec<u8> = Vec::new();
    let mut st: u16 = seed & 0x7fff;
    let mut i: usize = 0;
    while i < n
        invariant
            i <= n,
            st == scrambler_state(seed, i as int),
            out@ == scrambling(seed, n as nat).take(i as int),
        decreases n - i,
    {
        let b: u16 = ((st >> 14) ^ (st >> 13)) & 1;
        proof {
            lemma_words(0, 0, 0, st);
            assert(scrambling(seed, n as nat)[i as int] == b as u8);
        }
        out.push(b as u8);
        st = ((st << 1) | b) & 0x7fff;
        assert(out@ =~= scrambling(seed, n as nat).take(i + 1));
        i += 1;
    }
    assert(scrambling(seed, n as nat).take(n as int) =~= scrambling(seed, n as nat));
    out
}

/// Adds the scrambling sequence to a bit sequence.
pub fn scramble(bits: &[u8], seed: u16) -> (out: Vec<u8>)
    ensures
        out@ == scrambled(bits@, seed),
{
    let s: Vec<u8> = scrambler_seq(bits.len(), seed);
    let mut out: Vec<u8> = Vec::new();
    let mut i: usize = 0;
    while i < bits.len()
        invariant
            i <= bits@.len(),
            s@ == scrambling(seed, bits@.len()),
            out@ == scrambled(bits@, seed).take(i as int),
        decreases bits@.len() - i,
    {
        out.push(bits[i] ^ s[i]);
        assert(out@ =~= scrambled(bits@, seed).take(i + 1));
        i += 1;
    }
    assert(scrambled(bits@, seed).take(bits@.len() as int) =~= scrambled(bits@, seed));
    out
}

} // verus!
