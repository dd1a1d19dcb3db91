//! SBAS ranging codes: C/A codes made by a delay of the second register.
use vstd::prelude::*;
use crate::gps::ca_code::{g1_at, g2_at, lemma_registers, G1_TAPS, G2_TAPS};
use crate::lfsr::{all_ones, chip, chip_of, shift, taps_fit};

verus! {

pub const SBAS_LO: usize = 120;

pub const SBAS_HI: usize = 158;

/// Delay of the second register of each satellite, in chips.
pub const G2_DELAY: [u16; 39] = [
    145, 175, 52, 21, 237, 235, 886, 657, 634, 762, 355, 1012, 176, 603, 130,
    359, 595, 68, 386, 797, 456, 499, 883, 307, 127, 211, 121, 118, 163, 628,
    853, 484, 289, 811, 202, 1021, 463, 568, 904,
];

/// Chips of a satellite whose second register runs `d` chips late.
pub open spec fn delayed_chips(d: int) -> Seq<i8> {
    Seq::new(1023, |i: int| chip(g1_at(i)[9] ^ g2_at((i + 1023 - d) % 1023)[9]))
}

/// The second register runs behind by the delay, round the end of the code.
pub proof fn law_delay_of_the_second_register(d: int, k: int)
    requires
        0 <= d < 1023,
        0 <= k < 1023,
    ensures
        d <= k ==> delayed_chips(d)[k] == chip(g1_at(k)[9] ^ g2_at(k - d)[9]),
        k < d ==> delayed_chips(d)[k] == chip(g1_at(k)[9] ^ g2_at(k - d + 1023)[9]),
{
    if d <= k {
        assert((k + 1023 - d) % 1023 == k - d);
    } else {
        assert((k + 1023 - d) % 1023 == k + 1023 - d);
    }
}

/// Bits that leave the two registers over one period.
pub fn base_sequences() -> (r: (Vec<u8>, Vec<u8>))
    ensures
        r.0@ == Seq::new(1023, |i: int| g1_at(i)[9]),
        r.1@ == Seq::new(1023, |i: int| g2_at(i)[9]),
{
    proof {
        lemma_registers(0);
    }
    let mut g1: Vec<u8> = all_ones(10);
    let mut g2: Vec<u8> = all_ones(10);
    let mut cg1: Vec<u8> = Vec::new();
    let mut cg2: Vec<u8> = Vec::new();
    let mut k: usize = 0;
    while k < 1023
        invariant
            k <= 1023,
            taps_fit(G1_TAPS@, 10),
            taps_fit(G2_TAPS@, 10),
            g1@.len() == 10,
            g2@.len() == 10,
            g1@ == g1_at(k as int),
            g2@ == g2_at(k as int),
            cg1@ == Seq::new(k as nat, |i: int| g1_at(i)[9]),
            cg2@ == Seq::new(k as nat, |i: int| g2_at(i)[9]),
        decreases 1023 - k,
    {
        cg1.push(g1[9]);
        cg2.push(g2[9]);
        shift(&mut g1, &G1_TAPS);
        shift(&mut g2, &G2_TAPS);
        k += 1;
        assert(cg1@ =~= Seq::new(k as nat, |i: int| g1_at(i)[9]));
        assert(cg2@ =~= Seq::new(k as nat, |i: int| g2_at(i)[9]));
        proof {
            lemma_registers(k as int);
        }
    }
    (cg1, cg2)
}

/// Code of SBAS satellite `prn`, 120 to 158.
pub fn sbas_code(prn: usize) -> (out: Vec<i8>)
    requires
        SBAS_LO <= prn <= SBAS_HI,
    ensures
        out@ == delayed_chips(G2_DELAY[prn - 120] as int),
{
    let d: usize = G2_DELAY[prn - SBAS_LO] as usize;
    assert(d <= 1023);
    let (g1, g2) = base_sequences();
    let ghost all = delayed_chips(d as int);
    let mut out: Vec<i8> = Vec::new();
    let mut i: usize = 0;
    while i < 1023
        invariant
            i <= 1023,
            d <= 1023,
            g1@ == Seq::new(1023, |i: int| g1_at(i)[9]),
            g2@ == Seq::new(1023, |i: int| g2_at(i)[9]),
            all == delayed_chips(d as int),
            out@ == all.take(i as int),
        decreases 1023 - i,
    {
        let j: usize = (i + 1023 - d) % 1023;
        out.push(chip_of(g1[i] ^ g2[j]));
        i += 1;
        assert(out@ =~= all.take(i as int));
    }
    assert(all.take(1023) =~= all);
    out
}

} // verus!
