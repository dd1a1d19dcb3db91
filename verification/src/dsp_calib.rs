//! Ranging codes for calibration: GPS C/A and BeiDou B1I.
use vstd::prelude::*;
use crate::bits::is_bits;
use crate::gps::ca_code::{ca_chips, gps_ca};
use crate::lfsr::{
    after, chip, chip_of, law_stages_come_out, lemma_register, lemma_xor_bits, shift, tap_sum, taps_fit,
};

verus! {

/// The two stages of the second B1I register that make each satellite's code.
pub const B1_PAIRS: [(usize, usize); 37] = [
    (1, 3),  (1, 4),  (1, 5),  (1, 6),  (1, 8),  (1, 9),  (1, 10), (1, 11),
    (2, 7),  (3, 4),  (3, 5),  (3, 6),  (3, 8),  (3, 9),  (3, 10), (3, 11),
    (4, 5),  (4, 6),  (4, 8),  (4, 9),  (4, 10), (4, 11),
    (5, 6),  (5, 8),  (5, 9),  (5, 10), (5, 11),
    (6, 8),  (6, 9),  (6, 10), (6, 11),
    (8, 9),  (8, 10), (8, 11),
    (9, 10), (9, 11), (10, 11),
];

pub const B1_G1_TAPS: [usize; 6] = [1, 7, 8, 9, 10, 11];

pub const B1_G2_TAPS: [usize; 8] = [1, 2, 3, 4, 5, 8, 9, 11];

/// First state of both B1I registers.
pub open spec fn b1_start() -> Seq<u8> {
    seq![0u8, 1, 0, 1, 0, 1, 0, 1, 0, 1, 0]
}

pub open spec fn zeros(n: nat) -> Seq<i8> {
    Seq::new(n, |i: int| 0i8)
}

/// B1I code bit `k` of a satellite.
pub open spec fn b1_bit(prn: int, k: int) -> u8 {
    let g1 = after(b1_start(), B1_G1_TAPS@, k as nat);
    let g2 = after(b1_start(), B1_G2_TAPS@, k as nat);
    g1[10] ^ (g2[B1_PAIRS[prn - 1].0 - 1] ^ g2[B1_PAIRS[prn - 1].1 - 1])
}

pub open spec fn b1_chips(prn: int) -> Seq<i8> {
    Seq::new(2046, |k: int| chip(b1_bit(prn, k)))
}

fn silence(n: usize) -> (v: Vec<i8>)
    ensures
        v@ == zeros(n as nat),
{
    let mut v: Vec<i8> = Vec::new();
    let mut i: usize = 0;
    while i < n
        invariant
            i <= n,
            v@ == zeros(i as nat),
        decreases n - i,
    {
        v.push(0);
        i += 1;
        assert(v@ =~= zeros(i as nat));
    }
    v
}

/// Bit `k` that leaves the first register of the B1 codes.
pub open spec fn b1_first(k: int) -> u8 {
    after(b1_start(), B1_G1_TAPS@, k as nat)[10]
}

/// Bit `k` that leaves the second register of the B1 codes.
pub open spec fn b1_second(k: int) -> u8 {
    after(b1_start(), B1_G2_TAPS@, k as nat)[10]
}

/// Both registers put out 0 and 1 in turn eleven times. After that each bit of the first is the
/// sum of those 1, 7, 8, 9, 10 and 11 before it, and each bit of the second of those 1, 2, 3, 4,
/// 5, 8, 9 and 11 before it.
pub proof fn law_b1_recurrences(k: int)
    requires
        0 <= k,
    ensures
        k < 11 ==> b1_first(k) == k % 2 && b1_second(k) == k % 2,
        b1_first(k + 11) == b1_first(k + 10) ^ b1_first(k + 4) ^ b1_first(k + 3) ^ b1_first(k + 2) ^ b1_first(k + 1)
            ^ b1_first(k),
        b1_second(k + 11) == b1_second(k + 10) ^ b1_second(k + 9) ^ b1_second(k + 8) ^ b1_second(k + 7) ^ b1_second(
            k + 6,
        ) ^ b1_second(k + 3) ^ b1_second(k + 2) ^ b1_second(k),
{
    reveal_with_fuel(tap_sum, 9);
    let s = b1_start();
    if k < 11 {
        law_stages_come_out(s, B1_G1_TAPS@, 0, 10 - k);
        law_stages_come_out(s, B1_G2_TAPS@, 0, 10 - k);
    }
    law_stages_come_out(s, B1_G1_TAPS@, k as nat, 0);
    law_stages_come_out(s, B1_G1_TAPS@, k as nat, 6);
    law_stages_come_out(s, B1_G1_TAPS@, k as nat, 7);
    law_stages_come_out(s, B1_G1_TAPS@, k as nat, 8);
    law_stages_come_out(s, B1_G1_TAPS@, k as nat, 9);
    law_stages_come_out(s, B1_G1_TAPS@, k as nat, 10);
    law_stages_come_out(s, B1_G2_TAPS@, k as nat, 0);
    law_stages_come_out(s, B1_G2_TAPS@, k as nat, 1);
    law_stages_come_out(s, B1_G2_TAPS@, k as nat, 2);
    law_stages_come_out(s, B1_G2_TAPS@, k as nat, 3);
    law_stages_come_out(s, B1_G2_TAPS@, k as nat, 4);
    law_stages_come_out(s, B1_G2_TAPS@, k as nat, 7);
    law_stages_come_out(s, B1_G2_TAPS@, k as nat, 8);
    law_stages_come_out(s, B1_G2_TAPS@, k as nat, 10);
    lemma_xor_bits(after(s, B1_G1_TAPS@, k as nat)[0], 0);
    lemma_xor_bits(after(s, B1_G2_TAPS@, k as nat)[0], 0);
}

/// A chip of a satellite's code is of a bit of the first register added to two of the second,
/// which are as far ahead as the stages of the satellite's pair are from the last.
pub proof fn law_b1_code_is_a_sum_of_three(prn: int, k: int)
    requires
        1 <= prn <= 37,
        0 <= k < 2046,
    ensures
        b1_chips(prn)[k] == chip(
            b1_first(k) ^ (b1_second(k + 11 - B1_PAIRS[prn - 1].0) ^ b1_second(k + 11 - B1_PAIRS[prn - 1].1)),
        ),
{
    law_pairs_are_in_order(prn);
    law_stages_come_out(b1_start(), B1_G2_TAPS@, k as nat, B1_PAIRS[prn - 1].0 - 1);
    law_stages_come_out(b1_start(), B1_G2_TAPS@, k as nat, B1_PAIRS[prn - 1].1 - 1);
}

/// The pairs of stages of the satellites are all different and in order, by the first stage
/// and then by the second, which is further on.
pub proof fn law_pairs_are_in_order(prn: int)
    requires
        1 <= prn <= 37,
    ensures
        1 <= B1_PAIRS[prn - 1].0 < B1_PAIRS[prn - 1].1 <= 11,
        prn < 37 ==> B1_PAIRS[prn - 1].0 < B1_PAIRS[prn].0 || (B1_PAIRS[prn - 1].0 == B1_PAIRS[prn].0 && B1_PAIRS[prn
            - 1].1 < B1_PAIRS[prn].1),
{
}

/// C/A code of a satellite; zeros if there is no such satellite.
pub fn generate_gps_ca_code(prn: usize) -> (code: Vec<i8>)
    ensures
        code@ == (if 1 <= prn <= 32 { ca_chips(prn as int) } else { zeros(1023) }),
{
    if prn < 1 || prn > 32 {
        return silence(1023);
    }
    gps_ca(prn)
}

proof fn lemma_b1(k: nat)
    ensures
        taps_fit(B1_G1_TAPS@, 11),
        taps_fit(B1_G2_TAPS@, 11),
        after(b1_start(), B1_G1_TAPS@, k).len() == 11,
        after(b1_start(), B1_G2_TAPS@, k).len() == 11,
{
    assert(taps_fit(B1_G1_TAPS@, 11));
    assert(taps_fit(B1_G2_TAPS@, 11));
    assert(is_bits(b1_start()));
    lemma_register(b1_start(), B1_G1_TAPS@, k);
    lemma_register(b1_start(), B1_G2_TAPS@, k);
}

fn b1_register() -> (s: Vec<u8>)
    ensures
        s@ == b1_start(),
{
    let mut s: Vec<u8> = Vec::new();
    let mut i: usize = 0;
    while i < 11
        invariant
            i <= 11,
            s@.len() == i,
            forall|j: int| 0 <= j < i ==> #[trigger] s@[j] == j % 2,
        decreases 11 - i,
    {
        s.push((i % 2) as u8);
        i += 1;
    }
    assert(s@ =~= b1_start());
    s
}

/// B1I code of a satellite; zeros if there is no such satellite.
pub fn generate_beidou_b1_code(prn: usize) -> (code: Vec<i8>)
    ensures
        code@ == (if 1 <= prn <= 37 { b1_chips(prn as int) } else { zeros(2046) }),
{
    if prn < 1 || prn > 37 {
        return silence(2046);
    }
    let t1: usize = B1_PAIRS[prn - 1].0;
    let t2: usize = B1_PAIRS[prn - 1].1;
    assert(1 <= t1 <= 11 && 1 <= t2 <= 11);
    proof {
        lemma_b1(0);
    }
    let mut g1: Vec<u8> = b1_register();
    let mut g2: Vec<u8> = b1_register();
    let ghost all = b1_chips(prn as int);
    let mut code: Vec<i8> = Vec::new();
    let mut k: usize = 0;
    while k < 2046
        invariant
            k <= 2046,
            1 <= prn <= 37,
            t1 == B1_PAIRS[prn - 1].0,
            t2 == B1_PAIRS[prn - 1].1,
            1 <= t1 <= 11,
            1 <= t2 <= 11,
            taps_fit(B1_G1_TAPS@, 11),
            taps_fit(B1_G2_TAPS@, 11),
            g1@.len() == 11,
            g2@.len() == 11,
            g1@ == after(b1_start(), B1_G1_TAPS@, k as nat),
            g2@ == after(b1_start(), B1_G2_TAPS@, k as nat),
            all == b1_chips(prn as int),
            code@ == all.take(k as int),
        decreases 2046 - k,
    {
        code.push(chip_of(g1[10] ^ (g2[t1 - 1] ^ g2[t2 - 1])));
        assert(code@ =~= all.take(k + 1));
        shift(&mut g1, &B1_G1_TAPS);
        shift(&mut g2, &B1_G2_TAPS);
        k += 1;
        proof {
            lemma_b1(k as nat);
        }
    }
    assert(all.take(2046) =~= all);
    code
}

} // verus!
