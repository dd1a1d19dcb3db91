//! Galileo E5a-I ranging codes.
use vstd::prelude::*;
use vstd::arithmetic::power2::{lemma2_to64, lemma_pow2_strictly_increases, pow2};
use crate::bits::{bits_value, field_bits, law_bits_of_a_value, lemma_value_bound, ubits};
use crate::lfsr::{
    chip, chip_of, law_stream_recurrence, lemma_bit_of_number, lemma_low_bits, lemma_xor_bits, load_bits, low_bits,
    mask_taps, run_mask, stream, tap_sum,
};

verus! {

pub const CODE_LEN: usize = 10230;

pub const STAGES: usize = 14;

/// Feedback taps of the first register, the first stage highest.
pub const X1_TAPS: u32 = 0o20241;

/// Feedback taps of the second register, the first stage highest.
pub const X2_TAPS: u32 = 0o24330;

/// First state of the second register of each satellite, the first stage
/// highest.
pub const E5AI_START: [u32; 50] = [
    0o30305, 0o14234, 0o27213, 0o20577, 0o23312, 0o33463, 0o15614, 0o12537,
    0o01527, 0o30236, 0o27344, 0o07272, 0o36377, 0o17046, 0o06434, 0o15405,
    0o24252, 0o11631, 0o24776, 0o00630, 0o11560, 0o17272, 0o27445, 0o31702,
    0o13012, 0o14401, 0o34727, 0o22627, 0o30623, 0o27256, 0o01520, 0o14211,
    0o31465, 0o22164, 0o33516, 0o02737, 0o21316, 0o35425, 0o35633, 0o24655,
    0o14054, 0o27027, 0o06604, 0o31455, 0o34465, 0o25273, 0o20763, 0o31721,
    0o17312, 0o13277,
];

/// The low `n` bits of a number in reverse.
pub open spec fn reversed(r: u32, n: nat) -> u32 {
    bits_value(low_bits(r, n)) as u32
}

/// The low `n` bits of a number in reverse.
pub fn rev_reg(r: u32, n: usize) -> (rr: u32)
    requires
        n <= 32,
    ensures
        rr == reversed(r, n as nat),
{
    let b: Vec<u8> = load_bits(r, n);
    assert(b@.subrange(0, n as int) =~= b@);
    let v: u64 = ubits(b.as_slice(), 0, n);
    proof {
        lemma2_to64();
        if n < 32 {
            lemma_pow2_strictly_increases(n as nat, 32);
        }
    }
    v as u32
}

/// The bits that leave a register of 14 stages whose taps are the bits of a mask.
pub fn lfsr(n: usize, init: u32, taps: u32) -> (out: Vec<u8>)
    ensures
        out@ == stream(init, taps, 14, n as nat),
{
    run_mask(n, init, taps, STAGES)
}

pub open spec fn e5ai_chips(prn: int) -> Seq<i8> {
    let x1 = stream(0x3FFF, reversed(X1_TAPS, 14), 14, 10230);
    let x2 = stream(reversed(E5AI_START[prn - 1], 14), reversed(X2_TAPS, 14), 14, 10230);
    Seq::new(10230, |k: int| chip(x1[k] ^ x2[k]))
}

/// A bit of a reversed number is the one that stands as far from the other end.
pub proof fn law_reversed_bits(r: u32, n: nat, k: u32)
    requires
        1 <= n <= 32,
        k < n,
    ensures
        (reversed(r, n) >> k) & 1 == (r >> ((n - 1 - k) as u32)) & 1,
{
    let s = low_bits(r, n);
    lemma_low_bits(r, n);
    law_bits_of_a_value(s);
    lemma_value_bound(s);
    lemma2_to64();
    if n < 32 {
        lemma_pow2_strictly_increases(n, 32);
    }
    assert(reversed(r, n) == bits_value(s));
    lemma_bit_of_number(reversed(r, n), k);
    assert(field_bits(bits_value(s) as int, n)[n - 1 - k] == s[n - 1 - k]);
    lemma_bit_of_number(r, (n - 1 - k) as u32);
}

proof fn lemma_x1_taps()
    ensures
        mask_taps(reversed(X1_TAPS, 14), 14) == seq![1usize, 7, 9, 14],
{
    lemma2_to64();
    reveal_with_fuel(mask_taps, 15);
    law_reversed_bits(X1_TAPS, 14, 0);
    lemma_bit_of_number(X1_TAPS, 0);
    law_reversed_bits(X1_TAPS, 14, 1);
    lemma_bit_of_number(X1_TAPS, 1);
    law_reversed_bits(X1_TAPS, 14, 2);
    lemma_bit_of_number(X1_TAPS, 2);
    law_reversed_bits(X1_TAPS, 14, 3);
    lemma_bit_of_number(X1_TAPS, 3);
    law_reversed_bits(X1_TAPS, 14, 4);
    lemma_bit_of_number(X1_TAPS, 4);
    law_reversed_bits(X1_TAPS, 14, 5);
    lemma_bit_of_number(X1_TAPS, 5);
    law_reversed_bits(X1_TAPS, 14, 6);
    lemma_bit_of_number(X1_TAPS, 6);
    law_reversed_bits(X1_TAPS, 14, 7);
    lemma_bit_of_number(X1_TAPS, 7);
    law_reversed_bits(X1_TAPS, 14, 8);
    lemma_bit_of_number(X1_TAPS, 8);
    law_reversed_bits(X1_TAPS, 14, 9);
    lemma_bit_of_number(X1_TAPS, 9);
    law_reversed_bits(X1_TAPS, 14, 10);
    lemma_bit_of_number(X1_TAPS, 10);
    law_reversed_bits(X1_TAPS, 14, 11);
    lemma_bit_of_number(X1_TAPS, 11);
    law_reversed_bits(X1_TAPS, 14, 12);
    lemma_bit_of_number(X1_TAPS, 12);
    law_reversed_bits(X1_TAPS, 14, 13);
    lemma_bit_of_number(X1_TAPS, 13);
    assert(mask_taps(reversed(X1_TAPS, 14), 14) =~= seq![1usize, 7, 9, 14]);
}

proof fn lemma_x2_taps()
    ensures
        mask_taps(reversed(X2_TAPS, 14), 14) == seq![1usize, 3, 7, 8, 10, 11],
{
    lemma2_to64();
    reveal_with_fuel(mask_taps, 15);
    law_reversed_bits(X2_TAPS, 14, 0);
    lemma_bit_of_number(X2_TAPS, 0);
    law_reversed_bits(X2_TAPS, 14, 1);
    lemma_bit_of_number(X2_TAPS, 1);
    law_reversed_bits(X2_TAPS, 14, 2);
    lemma_bit_of_number(X2_TAPS, 2);
    law_reversed_bits(X2_TAPS, 14, 3);
    lemma_bit_of_number(X2_TAPS, 3);
    law_reversed_bits(X2_TAPS, 14, 4);
    lemma_bit_of_number(X2_TAPS, 4);
    law_reversed_bits(X2_TAPS, 14, 5);
    lemma_bit_of_number(X2_TAPS, 5);
    law_reversed_bits(X2_TAPS, 14, 6);
    lemma_bit_of_number(X2_TAPS, 6);
    law_reversed_bits(X2_TAPS, 14, 7);
    lemma_bit_of_number(X2_TAPS, 7);
    law_reversed_bits(X2_TAPS, 14, 8);
    lemma_bit_of_number(X2_TAPS, 8);
    law_reversed_bits(X2_TAPS, 14, 9);
    lemma_bit_of_number(X2_TAPS, 9);
    law_reversed_bits(X2_TAPS, 14, 10);
    lemma_bit_of_number(X2_TAPS, 10);
    law_reversed_bits(X2_TAPS, 14, 11);
    lemma_bit_of_number(X2_TAPS, 11);
    law_reversed_bits(X2_TAPS, 14, 12);
    lemma_bit_of_number(X2_TAPS, 12);
    law_reversed_bits(X2_TAPS, 14, 13);
    lemma_bit_of_number(X2_TAPS, 13);
    assert(mask_taps(reversed(X2_TAPS, 14), 14) =~= seq![1usize, 3, 7, 8, 10, 11]);
}

/// Each bit of the first register is the sum of those 1, 6, 8 and 14 before it, and each bit of the
/// second of those 4, 5, 7, 8, 12 and 14 before it. The second starts with the bits of the
/// satellite's number, the highest first.
pub proof fn law_register_recurrences(init: u32, n: nat, k: int)
    requires
        0 <= k,
        k + 14 < n,
    ensures
        ({
            let x = stream(init, reversed(X1_TAPS, 14), 14, n);
            x[k + 14] == x[k] ^ x[k + 6] ^ x[k + 8] ^ x[k + 13]
        }),
        ({
            let x = stream(init, reversed(X2_TAPS, 14), 14, n);
            x[k + 14] == x[k] ^ x[k + 2] ^ x[k + 6] ^ x[k + 7] ^ x[k + 9] ^ x[k + 10]
        }),
        k < 14 ==> stream(reversed(init, 14), reversed(X2_TAPS, 14), 14, n)[k] == (init >> ((13 - k) as u32)) & 1,
{
    reveal_with_fuel(tap_sum, 8);
    lemma_x1_taps();
    lemma_x2_taps();
    law_stream_recurrence(init, reversed(X1_TAPS, 14), 14, n, k);
    law_stream_recurrence(init, reversed(X2_TAPS, 14), 14, n, k);
    lemma_xor_bits(stream(init, reversed(X1_TAPS, 14), 14, n)[k], 0);
    lemma_xor_bits(stream(init, reversed(X2_TAPS, 14), 14, n)[k], 0);
    if k < 14 {
        law_stream_recurrence(reversed(init, 14), reversed(X2_TAPS, 14), 14, n, k);
        law_reversed_bits(init, 14, k as u32);
        lemma_bit_of_number(reversed(init, 14), k as u32);
        assert(low_bits(reversed(init, 14), 14)[k] == (reversed(init, 14) >> (k as u32)) & 1);
    }
}

/// E5a-I code of satellite `prn`, 1 to 50.
pub fn e5ai_code(prn: usize) -> (out: Vec<i8>)
    requires
        1 <= prn <= 50,
    ensures
        out@ == e5ai_chips(prn as int),
{
    let x1: Vec<u8> = lfsr(CODE_LEN, 0x3FFF, rev_reg(X1_TAPS, STAGES));
    let x2: Vec<u8> = lfsr(CODE_LEN, rev_reg(E5AI_START[prn - 1], STAGES), rev_reg(X2_TAPS, STAGES));
    let ghost all = e5ai_chips(prn as int);
    let ghost (s1, s2) = (x1@, x2@);
    let mut out: Vec<i8> = Vec::new();
    let mut k: usize = 0;
    while k < 10230
        invariant
            k <= 10230,
            x1@ == s1,
            x2@ == s2,
            s1.len() == 10230,
            s2.len() == 10230,
            all == Seq::new(10230, |k: int| chip(s1[k] ^ s2[k])),
            out@ == all.take(k as int),
        decreases 10230 - k,
    {
        out.push(chip_of(x1[k] ^ x2[k]));
        k += 1;
        assert(out@ =~= all.take(k as int));
    }
    assert(all.take(10230) =~= all);
    out
}

} // verus!
