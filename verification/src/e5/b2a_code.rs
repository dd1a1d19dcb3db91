//! BeiDou B2a ranging codes.
use vstd::prelude::*;
use vstd::arithmetic::power2::lemma2_to64;
use crate::lfsr::{
    chip, chip_of, law_stream_recurrence, lemma_bit_of_number, lemma_xor_bits, mask_taps, run_mask, stream, tap_sum,
};

verus! {

pub const CODE_LEN: usize = 10230;

pub const STAGES: usize = 13;

/// Length at which the first register is cut short.
pub const G1_LEN: usize = 8190;

pub const G1_DATA_TAPS: u32 = 0x1105;

pub const G2_DATA_TAPS: u32 = 0x0517;

pub const G1_PILOT_TAPS: u32 = 0x04C1;

pub const G2_PILOT_TAPS: u32 = 0x1163;

/// First state of the second register of each satellite, data component.
pub const B2AD_INIT: [u32; 63] = [
    0x1025, 0x1034, 0x10AD, 0x114F, 0x1155, 0x11AE, 0x11EE, 0x11FB,
    0x1329, 0x13DA, 0x1435, 0x1444, 0x1455, 0x145B, 0x145C, 0x14A3,
    0x14F7, 0x1501, 0x153E, 0x15AB, 0x15B1, 0x1653, 0x1662, 0x1698,
    0x16B6, 0x16F2, 0x16FF, 0x1712, 0x173C, 0x17A1, 0x17C8, 0x17D4,
    0x17EB, 0x17F3, 0x1851, 0x1894, 0x18B7, 0x1911, 0x1919, 0x19AB,
    0x19B1, 0x19D2, 0x1A55, 0x1A74, 0x1ACB, 0x1B57, 0x1C34, 0x1C83,
    0x1C8B, 0x1CA3, 0x1CA8, 0x1D3B, 0x1D97, 0x1E48, 0x1E94, 0x1E99,
    0x1EDA, 0x1EF8, 0x1EFF, 0x1FB5, 0x0402, 0x1BF5, 0x03D2,
];

/// First state of the second register of each satellite, pilot component.
pub const B2AP_INIT: [u32; 63] = [
    0x1025, 0x1034, 0x10AD, 0x114F, 0x1155, 0x11AE, 0x11EE, 0x11FB,
    0x1329, 0x13DA, 0x1435, 0x1444, 0x1455, 0x145B, 0x145C, 0x14A3,
    0x14F7, 0x1501, 0x153E, 0x15AB, 0x15B1, 0x1653, 0x1662, 0x1698,
    0x16B6, 0x16F2, 0x16FF, 0x1712, 0x173C, 0x17A1, 0x17C8, 0x17D4,
    0x17EB, 0x17F3, 0x1851, 0x1894, 0x18B7, 0x1911, 0x1919, 0x19AB,
    0x19B1, 0x19D2, 0x1A55, 0x1A74, 0x1ACB, 0x1B57, 0x1C34, 0x1C83,
    0x1C8B, 0x1CA3, 0x1CA8, 0x1D3B, 0x1D97, 0x1E48, 0x1E94, 0x1E99,
    0x1EDA, 0x1EF8, 0x1EFF, 0x1FB5, 0x1486, 0x05F8, 0x0355,
];

/// The bits that leave a register of 13 stages whose taps are the bits of a mask.
pub fn lfsr(n: usize, init: u32, taps: u32) -> (out: Vec<u8>)
    ensures
        out@ == stream(init, taps, 13, n as nat),
{
    run_mask(n, init, taps, STAGES)
}

pub open spec fn b2a_chips(prn: int, pilot: bool) -> Seq<i8> {
    let g1 = stream(0x1FFF, if pilot { G1_PILOT_TAPS } else { G1_DATA_TAPS }, 13, 8190);
    let g2 = if pilot {
        stream(B2AP_INIT[prn - 1], G2_PILOT_TAPS, 13, 10230)
    } else {
        stream(B2AD_INIT[prn - 1], G2_DATA_TAPS, 13, 10230)
    };
    Seq::new(10230, |k: int| chip(g1[k % 8190] ^ g2[k]))
}

proof fn lemma_g1_data_taps()
    ensures
        mask_taps(G1_DATA_TAPS, 13) == seq![1usize, 3, 9, 13],
{
    lemma2_to64();
    reveal_with_fuel(mask_taps, 14);
    lemma_bit_of_number(G1_DATA_TAPS, 0);
    lemma_bit_of_number(G1_DATA_TAPS, 1);
    lemma_bit_of_number(G1_DATA_TAPS, 2);
    lemma_bit_of_number(G1_DATA_TAPS, 3);
    lemma_bit_of_number(G1_DATA_TAPS, 4);
    lemma_bit_of_number(G1_DATA_TAPS, 5);
    lemma_bit_of_number(G1_DATA_TAPS, 6);
    lemma_bit_of_number(G1_DATA_TAPS, 7);
    lemma_bit_of_number(G1_DATA_TAPS, 8);
    lemma_bit_of_number(G1_DATA_TAPS, 9);
    lemma_bit_of_number(G1_DATA_TAPS, 10);
    lemma_bit_of_number(G1_DATA_TAPS, 11);
    lemma_bit_of_number(G1_DATA_TAPS, 12);
    assert(mask_taps(G1_DATA_TAPS, 13) =~= seq![1usize, 3, 9, 13]);
}

proof fn lemma_g2_data_taps()
    ensures
        mask_taps(G2_DATA_TAPS, 13) == seq![1usize, 2, 3, 5, 9, 11],
{
    lemma2_to64();
    reveal_with_fuel(mask_taps, 14);
    lemma_bit_of_number(G2_DATA_TAPS, 0);
    lemma_bit_of_number(G2_DATA_TAPS, 1);
    lemma_bit_of_number(G2_DATA_TAPS, 2);
    lemma_bit_of_number(G2_DATA_TAPS, 3);
    lemma_bit_of_number(G2_DATA_TAPS, 4);
    lemma_bit_of_number(G2_DATA_TAPS, 5);
    lemma_bit_of_number(G2_DATA_TAPS, 6);
    lemma_bit_of_number(G2_DATA_TAPS, 7);
    lemma_bit_of_number(G2_DATA_TAPS, 8);
    lemma_bit_of_number(G2_DATA_TAPS, 9);
    lemma_bit_of_number(G2_DATA_TAPS, 10);
    lemma_bit_of_number(G2_DATA_TAPS, 11);
    lemma_bit_of_number(G2_DATA_TAPS, 12);
    assert(mask_taps(G2_DATA_TAPS, 13) =~= seq![1usize, 2, 3, 5, 9, 11]);
}

proof fn lemma_g1_pilot_taps()
    ensures
        mask_taps(G1_PILOT_TAPS, 13) == seq![1usize, 7, 8, 11],
{
    lemma2_to64();
    reveal_with_fuel(mask_taps, 14);
    lemma_bit_of_number(G1_PILOT_TAPS, 0);
    lemma_bit_of_number(G1_PILOT_TAPS, 1);
    lemma_bit_of_number(G1_PILOT_TAPS, 2);
    lemma_bit_of_number(G1_PILOT_TAPS, 3);
    lemma_bit_of_number(G1_PILOT_TAPS, 4);
    lemma_bit_of_number(G1_PILOT_TAPS, 5);
    lemma_bit_of_number(G1_PILOT_TAPS, 6);
    lemma_bit_of_number(G1_PILOT_TAPS, 7);
    lemma_bit_of_number(G1_PILOT_TAPS, 8);
    lemma_bit_of_number(G1_PILOT_TAPS, 9);
    lemma_bit_of_number(G1_PILOT_TAPS, 10);
    lemma_bit_of_number(G1_PILOT_TAPS, 11);
    lemma_bit_of_number(G1_PILOT_TAPS, 12);
    assert(mask_taps(G1_PILOT_TAPS, 13) =~= seq![1usize, 7, 8, 11]);
}

proof fn lemma_g2_pilot_taps()
    ensures
        mask_taps(G2_PILOT_TAPS, 13) == seq![1usize, 2, 6, 7, 9, 13],
{
    lemma2_to64();
    reveal_with_fuel(mask_taps, 14);
    lemma_bit_of_number(G2_PILOT_TAPS, 0);
    lemma_bit_of_number(G2_PILOT_TAPS, 1);
    lemma_bit_of_number(G2_PILOT_TAPS, 2);
    lemma_bit_of_number(G2_PILOT_TAPS, 3);
    lemma_bit_of_number(G2_PILOT_TAPS, 4);
    lemma_bit_of_number(G2_PILOT_TAPS, 5);
    lemma_bit_of_number(G2_PILOT_TAPS, 6);
    lemma_bit_of_number(G2_PILOT_TAPS, 7);
    lemma_bit_of_number(G2_PILOT_TAPS, 8);
    lemma_bit_of_number(G2_PILOT_TAPS, 9);
    lemma_bit_of_number(G2_PILOT_TAPS, 10);
    lemma_bit_of_number(G2_PILOT_TAPS, 11);
    lemma_bit_of_number(G2_PILOT_TAPS, 12);
    assert(mask_taps(G2_PILOT_TAPS, 13) =~= seq![1usize, 2, 6, 7, 9, 13]);
}

/// The registers of the data code: each bit of the first is the sum of those 1, 5, 11 and 13 before it,
/// each bit of the second of those 3, 5, 9, 11, 12 and 13 before it. Those of the pilot code: 3, 6, 7 and 13, and
/// 1, 5, 7, 8, 12 and 13.
pub proof fn law_register_recurrences(init: u32, n: nat, k: int)
    requires
        0 <= k,
        k + 13 < n,
    ensures
        ({
            let x = stream(init, G1_DATA_TAPS, 13, n);
            x[k + 13] == x[k] ^ x[k + 2] ^ x[k + 8] ^ x[k + 12]
        }),
        ({
            let x = stream(init, G2_DATA_TAPS, 13, n);
            x[k + 13] == x[k] ^ x[k + 1] ^ x[k + 2] ^ x[k + 4] ^ x[k + 8] ^ x[k + 10]
        }),
        ({
            let x = stream(init, G1_PILOT_TAPS, 13, n);
            x[k + 13] == x[k] ^ x[k + 6] ^ x[k + 7] ^ x[k + 10]
        }),
        ({
            let x = stream(init, G2_PILOT_TAPS, 13, n);
            x[k + 13] == x[k] ^ x[k + 1] ^ x[k + 5] ^ x[k + 6] ^ x[k + 8] ^ x[k + 12]
        }),
{
    reveal_with_fuel(tap_sum, 8);
    lemma_g1_data_taps();
    law_stream_recurrence(init, G1_DATA_TAPS, 13, n, k);
    lemma_xor_bits(stream(init, G1_DATA_TAPS, 13, n)[k], 0);
    lemma_g2_data_taps();
    law_stream_recurrence(init, G2_DATA_TAPS, 13, n, k);
    lemma_xor_bits(stream(init, G2_DATA_TAPS, 13, n)[k], 0);
    lemma_g1_pilot_taps();
    law_stream_recurrence(init, G1_PILOT_TAPS, 13, n, k);
    lemma_xor_bits(stream(init, G1_PILOT_TAPS, 13, n)[k], 0);
    lemma_g2_pilot_taps();
    law_stream_recurrence(init, G2_PILOT_TAPS, 13, n, k);
    lemma_xor_bits(stream(init, G2_PILOT_TAPS, 13, n)[k], 0);
}

/// B2a code of satellite `prn`, 1 to 63: the pilot or the data component.
pub fn b2a_code(prn: usize, pilot: bool) -> (out: Vec<i8>)
    requires
        1 <= prn <= 63,
    ensures
        out@ == b2a_chips(prn as int, pilot),
{
    let g1: Vec<u8> = lfsr(G1_LEN, 0x1FFF, if pilot { G1_PILOT_TAPS } else { G1_DATA_TAPS });
    let g2: Vec<u8> = if pilot {
        lfsr(CODE_LEN, B2AP_INIT[prn - 1], G2_PILOT_TAPS)
    } else {
        lfsr(CODE_LEN, B2AD_INIT[prn - 1], G2_DATA_TAPS)
    };
    let ghost all = b2a_chips(prn as int, pilot);
    let ghost (s1, s2) = (g1@, g2@);
    let mut out: Vec<i8> = Vec::new();
    let mut k: usize = 0;
    while k < 10230
        invariant
            k <= 10230,
            g1@ == s1,
            g2@ == s2,
            s1.len() == 8190,
            s2.len() == 10230,
            all == Seq::new(10230, |k: int| chip(s1[k % 8190] ^ s2[k])),
            out@ == all.take(k as int),
        decreases 10230 - k,
    {
        out.push(chip_of(g1[k % 8190] ^ g2[k]));
        k += 1;
        assert(out@ =~= all.take(k as int));
    }
    assert(all.take(10230) =~= all);
    out
}

} // verus!
