//! GPS L5 ranging codes.
use vstd::prelude::*;
use crate::bits::is_bits;
use crate::lfsr::{
    after, all_ones, chip, chip_of, law_clocks_add_up, law_stages_come_out, lemma_register, lemma_xor_bits, ones, shift,
    tap_sum, taps_fit,
};

verus! {

pub const CODE_LEN: usize = 10230;

/// Length at which the first register is cut short.
pub const XA_LEN: usize = 8190;

pub const XB_LEN: usize = 8191;

pub const XA_TAPS: [usize; 4] = [9, 10, 12, 13];

pub const XB_TAPS: [usize; 8] = [1, 3, 4, 6, 7, 8, 12, 13];

/// For each satellite the advance of its second register for the I5 and the Q5
/// code, and the first 13 bits of each, the first bit lowest.
pub const L5_TABLE: [(u16, u16, u16, u16); 63] = [
    (266, 1701, 0b0101011100100, 0b1001011001100),  
    (365, 323, 0b1100000110101, 0b0100011110110),   
    (804, 5292, 0b0100000001000, 0b1111000100011),  
    (1138, 2020, 0b1011000100110, 0b0011101101010), 
    (1509, 5429, 0b1110111010111, 0b0011110110010), 
    (1559, 7136, 0b0110011111010, 0b0101010101001), 
    (1756, 1041, 0b1010010011111, 0b1111110000001), 
    (2084, 5947, 0b1011110100100, 0b0110101101000), 
    (2170, 4315, 0b1111100101011, 0b1011101000011), 
    (2303, 148, 0b0111111011110, 0b0010010000110),  
    (2527, 535, 0b0000100111010, 0b0001000000101),  
    (2687, 1939, 0b1110011111001, 0b0101011000101), 
    (2930, 5206, 0b0001110011100, 0b0100110100101), 
    (3471, 5910, 0b0100000100111, 0b1010000111111), 
    (3940, 3595, 0b0110101011010, 0b1011110001111), 
    (4132, 5135, 0b0001111001001, 0b1101001011111), 
    (4332, 6082, 0b0100110001111, 0b1110011001000), 
    (4924, 6990, 0b1111000011110, 0b1011011100100), 
    (5343, 3546, 0b1100100011111, 0b0011001011011), 
    (5443, 1523, 0b0110101101101, 0b1100001110001), 
    (5641, 4548, 0b0010000001000, 0b0110110010000), 
    (5816, 4484, 0b1110111101111, 0b0010110001110), 
    (5898, 1893, 0b1000011111110, 0b1000101111101), 
    (5918, 3961, 0b1100010110100, 0b0110111110011), 
    (5955, 7106, 0b1101001101101, 0b0100010011011), 
    (6243, 5299, 0b1010110010110, 0b0101010111100), 
    (6345, 4660, 0b0101011011110, 0b1000011111010), 
    (6477, 276, 0b0111101010110, 0b1111101000010),  
    (6518, 4389, 0b0101111100001, 0b0101000100100), 
    (6875, 3783, 0b1000010110111, 0b1000001111001), 
    (7168, 1591, 0b0001010011110, 0b0101111100101), 
    (7187, 1601, 0b0000010111001, 0b1001000101010), 
    (7329, 749, 0b1101010000001, 0b1011001000100),  
    (7577, 1387, 0b1101111111001, 0b1111001000100), 
    (7720, 1661, 0b1111011011100, 0b0110010110011), 
    (7777, 3210, 0b1001011001000, 0b0011110101111), 
    (8057, 708, 0b0011010010000, 0b0010011010001),  
    (5358, 4226, 0b0101100000110, 0b1111110011101), 
    (3550, 5604, 0b1001001100101, 0b0101010011111), 
    (3412, 6375, 0b1100111001010, 0b1000110101010), 
    (819, 3056, 0b0111011011001, 0b0010111100100),  
    (4608, 1772, 0b0011101101100, 0b1011000100000), 
    (3698, 3662, 0b0011011111010, 0b0011001011001), 
    (962, 4401, 0b1001011010001, 0b1000100101000),  
    (3001, 5218, 0b1001010111111, 0b0000001111110), 
    (4441, 2838, 0b0111000111101, 0b0000000010011), 
    (4937, 6913, 0b0000001000100, 0b0101110011110), 
    (3717, 1685, 0b1000101010001, 0b0001001000111), 
    (4730, 1194, 0b0011010001001, 0b0011110000100), 
    (7291, 6963, 0b1000111110001, 0b0100101011100), 
    (2279, 5001, 0b1011100101001, 0b0010100011111), 
    (7613, 6694, 0b0100101011010, 0b1101110011001), 
    (5723, 991, 0b0000001000010, 0b0011111101111),  
    (7030, 7489, 0b0110001101110, 0b1100100110111), 
    (1475, 2441, 0b0000011001110, 0b1001001100110), 
    (2593, 639, 0b1110111011110, 0b0100010011001),  
    (2904, 2097, 0b0001000010011, 0b0000000001011), 
    (2056, 2498, 0b0000010100001, 0b0000001101111), 
    (2757, 6470, 0b0100001100001, 0b0101101101111), 
    (3756, 2399, 0b0100101001001, 0b0100100001101), 
    (6205, 242, 0b0011110011110, 0b1101100101011),  
    (5053, 3768, 0b1011000110001, 0b1010111000100), 
    (6437, 1186, 0b0101111001011, 0b0010001101001), 
];

/// Clocks a register once and returns the bit that leaves it.
pub fn clock(s: &mut Vec<u8>, taps: &[usize]) -> (out: u8)
    requires
        old(s)@.len() == 13,
        taps_fit(taps@, 13),
    ensures
        out == old(s)@[12],
        final(s)@ == crate::lfsr::fed(old(s)@, taps@),
        final(s)@.len() == 13,
{
    let out: u8 = s[12];
    shift(s, taps);
    out
}

/// The bits that leave a register over `n` clocks.
pub open spec fn stream(taps: Seq<usize>, n: nat, state: Seq<u8>) -> Seq<u8> {
    Seq::new(n, |k: int| after(state, taps, k as nat)[12])
}

/// The bits that leave a register over `n` clocks, and its last state.
pub fn run(taps: &[usize], n: usize, state: Vec<u8>) -> (r: (Vec<u8>, Vec<u8>))
    requires
        state@.len() == 13,
        is_bits(state@),
        taps_fit(taps@, 13),
    ensures
        r.0@ == stream(taps@, n as nat, state@),
        r.1@ == after(state@, taps@, n as nat),
        r.1@.len() == 13,
        is_bits(r.1@),
{
    let ghost s0 = state@;
    let ghost all = stream(taps@, n as nat, s0);
    let mut s: Vec<u8> = state;
    let mut out: Vec<u8> = Vec::new();
    let mut k: usize = 0;
    while k < n
        invariant
            k <= n,
            s0.len() == 13,
            is_bits(s0),
            taps_fit(taps@, 13),
            s@.len() == 13,
            s@ == after(s0, taps@, k as nat),
            all == stream(taps@, n as nat, s0),
            out@ == all.take(k as int),
        decreases n - k,
    {
        let b: u8 = clock(&mut s, taps);
        out.push(b);
        k += 1;
        assert(out@ =~= all.take(k as int));
    }
    assert(all.take(n as int) =~= all);
    proof {
        lemma_register(s0, taps@, n as nat);
    }
    (out, s)
}

/// The register of ones after `n` clocks.
pub fn advance(taps: &[usize], n: usize) -> (s: Vec<u8>)
    requires
        taps_fit(taps@, 13),
    ensures
        s@ == after(ones(13), taps@, n as nat),
        s@.len() == 13,
        is_bits(s@),
{
    let (_, s) = run(taps, n, all_ones(13));
    s
}

/// Output of the first register over its period.
pub open spec fn xa_bits() -> Seq<u8> {
    stream(XA_TAPS@, 8190, ones(13))
}

/// Output of the second register over its period, after an advance.
pub open spec fn xb_bits(adv: nat) -> Seq<u8> {
    stream(XB_TAPS@, 8191, after(ones(13), XB_TAPS@, adv))
}

/// Advance of the second register of a satellite.
pub open spec fn advance_of(prn: int, is_q5: bool) -> nat {
    if is_q5 {
        L5_TABLE[prn - 1].1 as nat
    } else {
        L5_TABLE[prn - 1].0 as nat
    }
}

pub open spec fn l5_chips(prn: int, is_q5: bool) -> Seq<i8> {
    Seq::new(10230, |k: int| chip(xa_bits()[k % 8190] ^ xb_bits(advance_of(prn, is_q5))[k % 8191]))
}

/// An advanced register gives the bits that the register of ones gives that much
/// later.
pub proof fn law_advance_is_an_earlier_start(adv: nat, k: nat)
    ensures
        after(after(ones(13), XB_TAPS@, adv), XB_TAPS@, k)[12] == after(ones(13), XB_TAPS@, adv + k)[12],
{
    law_clocks_add_up(ones(13), XB_TAPS@, adv, k);
}

/// The first register puts out thirteen ones; after that each bit is the sum of those 9, 10,
/// 12 and 13 before it.
pub proof fn law_xa_recurrence(k: int)
    requires
        0 <= k < 8177,
    ensures
        k < 13 ==> xa_bits()[k] == 1,
        xa_bits()[k + 13] == xa_bits()[k + 4] ^ xa_bits()[k + 3] ^ xa_bits()[k + 1] ^ xa_bits()[k],
{
    reveal_with_fuel(tap_sum, 5);
    if k < 13 {
        law_stages_come_out(ones(13), XA_TAPS@, 0, 12 - k);
    }
    law_stages_come_out(ones(13), XA_TAPS@, k as nat, 8);
    law_stages_come_out(ones(13), XA_TAPS@, k as nat, 9);
    law_stages_come_out(ones(13), XA_TAPS@, k as nat, 11);
    law_stages_come_out(ones(13), XA_TAPS@, k as nat, 12);
    lemma_xor_bits(after(ones(13), XA_TAPS@, k as nat)[8], 0);
}

/// Each bit of the second register is the sum of those 1, 3, 4, 6, 7, 8, 12 and 13 before it,
/// whatever its advance, and with no advance it starts with thirteen ones.
pub proof fn law_xb_recurrence(adv: nat, k: int)
    requires
        0 <= k < 8178,
    ensures
        k < 13 ==> xb_bits(0)[k] == 1,
        xb_bits(adv)[k + 13] == xb_bits(adv)[k + 12] ^ xb_bits(adv)[k + 10] ^ xb_bits(adv)[k + 9] ^ xb_bits(adv)[k + 7]
            ^ xb_bits(adv)[k + 6] ^ xb_bits(adv)[k + 5] ^ xb_bits(adv)[k + 1] ^ xb_bits(adv)[k],
{
    reveal_with_fuel(tap_sum, 9);
    if k < 13 {
        law_stages_come_out(ones(13), XB_TAPS@, 0, 12 - k);
    }
    lemma_register(ones(13), XB_TAPS@, adv);
    let s = after(ones(13), XB_TAPS@, adv);
    law_stages_come_out(s, XB_TAPS@, k as nat, 0);
    law_stages_come_out(s, XB_TAPS@, k as nat, 2);
    law_stages_come_out(s, XB_TAPS@, k as nat, 3);
    law_stages_come_out(s, XB_TAPS@, k as nat, 5);
    law_stages_come_out(s, XB_TAPS@, k as nat, 6);
    law_stages_come_out(s, XB_TAPS@, k as nat, 7);
    law_stages_come_out(s, XB_TAPS@, k as nat, 11);
    law_stages_come_out(s, XB_TAPS@, k as nat, 12);
    lemma_xor_bits(after(s, XB_TAPS@, k as nat)[0], 0);
}

/// Output of the first register over its period.
pub fn xa_sequence() -> (v: Vec<u8>)
    ensures
        v@ == xa_bits(),
{
    assert(taps_fit(XA_TAPS@, 13));
    let (v, _) = run(&XA_TAPS, 8190, all_ones(13));
    v
}

/// Output of the second register of a satellite over its period.
pub fn xb_sequence(prn: usize, is_q5: bool) -> (v: Vec<u8>)
    requires
        1 <= prn <= 63,
    ensures
        v@ == xb_bits(advance_of(prn as int, is_q5)),
{
    assert(taps_fit(XB_TAPS@, 13));
    let adv: usize = if is_q5 { L5_TABLE[prn - 1].1 as usize } else { L5_TABLE[prn - 1].0 as usize };
    let (v, _) = run(&XB_TAPS, 8191, advance(&XB_TAPS, adv));
    v
}

/// L5 code of satellite `prn`, 1 to 63: the data code I5 or the pilot code Q5.
pub fn l5_code(prn: usize, is_q5: bool) -> (out: Vec<i8>)
    requires
        1 <= prn <= 63,
    ensures
        out@ == l5_chips(prn as int, is_q5),
{
    let xa: Vec<u8> = xa_sequence();
    let xb: Vec<u8> = xb_sequence(prn, is_q5);
    let ghost all = l5_chips(prn as int, is_q5);
    let mut out: Vec<i8> = Vec::new();
    let mut k: usize = 0;
    while k < 10230
        invariant
            k <= 10230,
            xa@ == xa_bits(),
            xb@ == xb_bits(advance_of(prn as int, is_q5)),
            all == l5_chips(prn as int, is_q5),
            out@ == all.take(k as int),
        decreases 10230 - k,
    {
        out.push(chip_of(xa[k % 8190] ^ xb[k % 8191]));
        k += 1;
        assert(out@ =~= all.take(k as int));
    }
    assert(all.take(10230) =~= all);
    out
}

} // verus!
