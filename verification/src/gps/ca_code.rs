//! GPS C/A ranging codes.
use vstd::prelude::*;
use crate::bits::is_bits;
use crate::lfsr::{
    after, all_ones, chip, chip_of, law_stages_come_out, lemma_register, lemma_xor_bits, ones, shift, tap_sum, taps_fit,
};

verus! {

/// The two stages of the second register that make each satellite's code.
pub const TAPS: [(usize, usize); 32] = [
    (2, 6), (3, 7), (4, 8), (5, 9), (1, 9), (2, 10), (1, 8), (2, 9),
    (3, 10), (2, 3), (3, 4), (5, 6), (6, 7), (7, 8), (8, 9), (9, 10),
    (1, 4), (2, 5), (3, 6), (4, 7), (5, 8), (6, 9), (1, 3), (4, 6),
    (5, 7), (6, 8), (7, 9), (8, 10), (1, 6), (2, 7), (3, 8), (4, 9),
];

pub const CA_LEN: usize = 1023;

/// Feedback taps of the first register.
pub const G1_TAPS: [usize; 2] = [3, 10];

/// Feedback taps of the second register.
pub const G2_TAPS: [usize; 6] = [2, 3, 6, 8, 9, 10];

/// First register after `k` chips.
pub open spec fn g1_at(k: int) -> Seq<u8> {
    after(ones(10), G1_TAPS@, k as nat)
}

/// Second register after `k` chips.
pub open spec fn g2_at(k: int) -> Seq<u8> {
    after(ones(10), G2_TAPS@, k as nat)
}

/// Code bit `k` of a satellite.
pub open spec fn ca_bit(prn: int, k: int) -> u8 {
    g1_at(k)[9] ^ (g2_at(k)[TAPS[prn - 1].0 - 1] ^ g2_at(k)[TAPS[prn - 1].1 - 1])
}

pub open spec fn ca_chips(prn: int) -> Seq<i8> {
    Seq::new(1023, |k: int| chip(ca_bit(prn, k)))
}

proof fn lemma_taps(prn: int)
    requires
        1 <= prn <= 32,
    ensures
        1 <= TAPS[prn - 1].0 <= 10,
        1 <= TAPS[prn - 1].1 <= 10,
{
}

pub(crate) proof fn lemma_registers(k: int)
    ensures
        taps_fit(G1_TAPS@, 10),
        taps_fit(G2_TAPS@, 10),
        g1_at(k).len() == 10,
        g2_at(k).len() == 10,
        is_bits(g1_at(k)),
        is_bits(g2_at(k)),
{
    assert(taps_fit(G1_TAPS@, 10));
    assert(taps_fit(G2_TAPS@, 10));
    lemma_register(ones(10), G1_TAPS@, k as nat);
    lemma_register(ones(10), G2_TAPS@, k as nat);
}

/// The two registers put out ten ones first. After that each bit of the first is the sum of
/// those 3 and 10 before it, and each bit of the second of those 2, 3, 6, 8, 9 and 10 before it.
pub proof fn law_register_recurrences(k: int)
    requires
        0 <= k,
    ensures
        k < 10 ==> g1_at(k)[9] == 1 && g2_at(k)[9] == 1,
        g1_at(k + 10)[9] == g1_at(k + 7)[9] ^ g1_at(k)[9],
        g2_at(k + 10)[9] == g2_at(k + 8)[9] ^ g2_at(k + 7)[9] ^ g2_at(k + 4)[9] ^ g2_at(k + 2)[9] ^ g2_at(k + 1)[9]
            ^ g2_at(k)[9],
{
    reveal_with_fuel(tap_sum, 7);
    if k < 10 {
        law_stages_come_out(ones(10), G1_TAPS@, 0, 9 - k);
        law_stages_come_out(ones(10), G2_TAPS@, 0, 9 - k);
    }
    law_stages_come_out(ones(10), G1_TAPS@, k as nat, 2);
    law_stages_come_out(ones(10), G1_TAPS@, k as nat, 9);
    law_stages_come_out(ones(10), G2_TAPS@, k as nat, 1);
    law_stages_come_out(ones(10), G2_TAPS@, k as nat, 2);
    law_stages_come_out(ones(10), G2_TAPS@, k as nat, 5);
    law_stages_come_out(ones(10), G2_TAPS@, k as nat, 7);
    law_stages_come_out(ones(10), G2_TAPS@, k as nat, 8);
    law_stages_come_out(ones(10), G2_TAPS@, k as nat, 9);
    lemma_xor_bits(g1_at(k)[2], 0);
    lemma_xor_bits(g2_at(k)[1], 0);
}

/// A bit of a satellite's code is that of the first register added to two of the second,
/// which are as far ahead as the stages of the satellite's taps are from the last.
pub proof fn law_code_is_a_sum_of_three(prn: int, k: int)
    requires
        1 <= prn <= 32,
        0 <= k < 1023,
    ensures
        ca_chips(prn)[k] == chip(
            g1_at(k)[9] ^ (g2_at(k + 10 - TAPS[prn - 1].0)[9] ^ g2_at(k + 10 - TAPS[prn - 1].1)[9]),
        ),
{
    lemma_taps(prn);
    law_stages_come_out(ones(10), G2_TAPS@, k as nat, TAPS[prn - 1].0 - 1);
    law_stages_come_out(ones(10), G2_TAPS@, k as nat, TAPS[prn - 1].1 - 1);
}

/// C/A code of satellite `prn`, 1 to 32.
pub fn gps_ca(prn: usize) -> (out: Vec<i8>)
    requires
        1 <= prn <= 32,
    ensures
        out@ == ca_chips(prn as int),
{
    let t1: usize = TAPS[prn - 1].0;
    let t2: usize = TAPS[prn - 1].1;
    proof {
        lemma_taps(prn as int);
        lemma_registers(0);
    }
    let mut g1: Vec<u8> = all_ones(10);
    let mut g2: Vec<u8> = all_ones(10);
    let ghost all = ca_chips(prn as int);
    let mut out: Vec<i8> = Vec::new();
    let mut k: usize = 0;
    while k < 1023
        invariant
            k <= 1023,
            1 <= prn <= 32,
            t1 == TAPS[prn - 1].0,
            t2 == TAPS[prn - 1].1,
            1 <= t1 <= 10,
            1 <= t2 <= 10,
            taps_fit(G1_TAPS@, 10),
            taps_fit(G2_TAPS@, 10),
            g1@.len() == 10,
            g2@.len() == 10,
            g1@ == g1_at(k as int),
            g2@ == g2_at(k as int),
            all == ca_chips(prn as int),
            out@ == all.take(k as int),
        decreases 1023 - k,
    {
        out.push(chip_of(g1[9] ^ (g2[t1 - 1] ^ g2[t2 - 1])));
        assert(out@ =~= all.take(k + 1));
        shift(&mut g1, &G1_TAPS);
        shift(&mut g2, &G2_TAPS);
        k += 1;
        proof {
            lemma_registers(k as int);
        }
    }
    assert(all.take(1023) =~= all);
    out
}

} // verus!
