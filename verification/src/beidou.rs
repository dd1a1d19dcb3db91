//! BeiDou B3I ranging codes.
use vstd::prelude::*;
use crate::bits::is_bits;
use crate::lfsr::{
    after_back, all_ones, chip, chip_of, fed_back, law_stages_come_out, lemma_low_bits, lemma_register, lemma_tap_sum,
    lemma_xor_bits, load_bits, low_bits, ones, shift_back, tap_sum, taps_fit,
};

verus! {

pub const CODE_LEN: usize = 10230;

/// First state of the second register of each satellite; the lowest bit is
/// stage 1.
pub const G2_INIT: [u16; 63] = [
    0o12777, 0o17053, 0o13612, 0o17773, 0o14437, 0o11144, 0o17722, 0o16775,
    0o12002, 0o2033, 0o16560, 0o2636, 0o6225, 0o7046, 0o10611, 0o16174,
    0o2305, 0o354, 0o10527, 0o1336, 0o2055, 0o2612, 0o1317, 0o3142,
    0o3510, 0o4451, 0o13323, 0o12742, 0o1365, 0o7777, 0o6617, 0o12611,
    0o11253, 0o14645, 0o15135, 0o17564, 0o2547, 0o16420, 0o15620, 0o15316,
    0o10064, 0o5731, 0o6674, 0o15161, 0o3442, 0o5305, 0o11746, 0o17510,
    0o511, 0o10254, 0o17114, 0o4617, 0o30, 0o10004, 0o3246, 0o13106,
    0o7170, 0o2712, 0o14766, 0o11105, 0o7040, 0o3102, 0o2116,
];

/// Feedback taps of the first register.
pub const G1_TAPS: [usize; 4] = [1, 10, 11, 13];

/// Feedback taps of the second register.
pub const G2_TAPS: [usize; 8] = [1, 2, 4, 5, 7, 8, 9, 13];

/// The state that sends the first register back to ones.
pub open spec fn reset_state() -> Seq<u8> {
    seq![0u8, 0, 1, 1, 1, 1, 1, 1, 1, 1, 1, 1, 1]
}

/// First register after `k` chips: it is cut short at the reset state.
pub open spec fn g1_at(k: nat) -> Seq<u8>
    decreases k,
{
    if k == 0 {
        ones(13)
    } else {
        let s = fed_back(g1_at((k - 1) as nat), G1_TAPS@);
        if s == reset_state() {
            ones(13)
        } else {
            s
        }
    }
}

/// Second register of a satellite after `k` chips.
pub open spec fn g2_at(prn: int, k: nat) -> Seq<u8> {
    after_back(low_bits(G2_INIT[prn - 1] as u32, 13), G2_TAPS@, k)
}

pub open spec fn b3i_chips(prn: int) -> Seq<i8> {
    Seq::new(10230, |k: int| chip(g1_at(k as nat)[0] ^ g2_at(prn, k as nat)[0]))
}

proof fn lemma_g1(k: nat)
    ensures
        g1_at(k).len() == 13,
        is_bits(g1_at(k)),
        taps_fit(G1_TAPS@, 13),
    decreases k,
{
    assert(taps_fit(G1_TAPS@, 13));
    if k > 0 {
        lemma_g1((k - 1) as nat);
        lemma_tap_sum(g1_at((k - 1) as nat), G1_TAPS@, 4);
    }
}

/// The first register starts again two clocks before it would come round to thirteen ones by
/// itself.
pub proof fn law_first_register_is_cut_short()
    ensures
        after_back(reset_state(), G1_TAPS@, 2) == ones(13),
{
    reveal_with_fuel(tap_sum, 5);
    reveal_with_fuel(after_back, 3);
    let a = reset_state();
    let b = fed_back(a, G1_TAPS@);
    lemma_xor_bits(0, 0);
    lemma_xor_bits(0, 1);
    lemma_xor_bits(1, 1);
    assert(b =~= seq![0u8, 1, 1, 1, 1, 1, 1, 1, 1, 1, 1, 1, 1]);
    assert(fed_back(b, G1_TAPS@) =~= ones(13));
}

/// While it does not start again, each bit of the first register is the sum of those 1, 3, 4 and
/// 13 before it.
pub proof fn law_first_register_recurrence(k: nat)
    requires
        forall|j: int| k < j <= k + 13 ==> #[trigger] g1_at(j as nat) != ones(13),
    ensures
        g1_at(k + 13)[0] == g1_at(k)[0] ^ g1_at(k + 9)[0] ^ g1_at(k + 10)[0] ^ g1_at(k + 12)[0],
{
    reveal_with_fuel(tap_sum, 5);
    lemma_g1(k);
    let s = g1_at(k);
    lemma_uncut(k, 9);
    lemma_uncut(k, 10);
    lemma_uncut(k, 12);
    lemma_uncut(k, 13);
    law_stages_come_out(s, G1_TAPS@, 0, 0);
    law_stages_come_out(s, G1_TAPS@, 0, 9);
    law_stages_come_out(s, G1_TAPS@, 0, 10);
    law_stages_come_out(s, G1_TAPS@, 0, 12);
    lemma_xor_bits(s[0], 0);
}

proof fn lemma_uncut(k: nat, m: nat)
    requires
        m <= 13,
        forall|j: int| k < j <= k + 13 ==> #[trigger] g1_at(j as nat) != ones(13),
    ensures
        g1_at(k + m) == after_back(g1_at(k), G1_TAPS@, m),
    decreases m,
{
    if m > 0 {
        lemma_uncut(k, (m - 1) as nat);
        assert(g1_at((k + m) as nat) != ones(13));
    }
}

/// Each bit of the second register is the sum of those 1, 5, 6, 7, 9, 10, 12 and 13 before it;
/// the first thirteen are the satellite's, the lowest first.
pub proof fn law_second_register_recurrence(prn: int, k: nat)
    requires
        1 <= prn <= 63,
    ensures
        k < 13 ==> g2_at(prn, k)[0] == low_bits(G2_INIT[prn - 1] as u32, 13)[k as int],
        g2_at(prn, k + 13)[0] == g2_at(prn, k)[0] ^ g2_at(prn, k + 1)[0] ^ g2_at(prn, k + 3)[0] ^ g2_at(prn, k + 4)[0]
            ^ g2_at(prn, k + 6)[0] ^ g2_at(prn, k + 7)[0] ^ g2_at(prn, k + 8)[0] ^ g2_at(prn, k + 12)[0],
{
    reveal_with_fuel(tap_sum, 9);
    let s = low_bits(G2_INIT[prn - 1] as u32, 13);
    lemma_low_bits(G2_INIT[prn - 1] as u32, 13);
    if k < 13 {
        law_stages_come_out(s, G2_TAPS@, 0, k as int);
    }
    law_stages_come_out(s, G2_TAPS@, k, 0);
    law_stages_come_out(s, G2_TAPS@, k, 1);
    law_stages_come_out(s, G2_TAPS@, k, 3);
    law_stages_come_out(s, G2_TAPS@, k, 4);
    law_stages_come_out(s, G2_TAPS@, k, 6);
    law_stages_come_out(s, G2_TAPS@, k, 7);
    law_stages_come_out(s, G2_TAPS@, k, 8);
    law_stages_come_out(s, G2_TAPS@, k, 12);
    lemma_xor_bits(after_back(s, G2_TAPS@, k)[0], 0);
}

/// The stages of a register from a number, the lowest bit first.
pub fn load(reg: u16) -> (r: Vec<u8>)
    ensures
        r@ == low_bits(reg as u32, 13),
        is_bits(r@),
{
    load_bits(reg as u32, 13)
}

fn at_reset(s: &Vec<u8>) -> (r: bool)
    requires
        s@.len() == 13,
    ensures
        r == (s@ == reset_state()),
{
    if s[0] != 0 || s[1] != 0 {
        return false;
    }
    let mut i: usize = 2;
    while i < 13
        invariant
            2 <= i <= 13,
            s@.len() == 13,
            s@[0] == 0,
            s@[1] == 0,
            forall|j: int| 2 <= j < i ==> s@[j] == 1,
        decreases 13 - i,
    {
        if s[i] != 1 {
            assert(reset_state()[i as int] == 1);
            return false;
        }
        i += 1;
    }
    assert(s@ =~= reset_state());
    true
}

/// B3I code of satellite `prn`, 1 to 63.
pub fn b3i_code(prn: usize) -> (out: Vec<i8>)
    requires
        1 <= prn <= 63,
    ensures
        out@ == b3i_chips(prn as int),
{
    assert(taps_fit(G2_TAPS@, 13));
    proof {
        lemma_g1(0);
    }
    let mut g1: Vec<u8> = all_ones(13);
    let mut g2: Vec<u8> = load(G2_INIT[prn - 1]);
    let ghost g20 = g2@;
    let ghost all = b3i_chips(prn as int);
    let mut out: Vec<i8> = Vec::new();
    let mut k: usize = 0;
    while k < 10230
        invariant
            k <= 10230,
            1 <= prn <= 63,
            taps_fit(G1_TAPS@, 13),
            taps_fit(G2_TAPS@, 13),
            g20 == low_bits(G2_INIT[prn - 1] as u32, 13),
            is_bits(g20),
            g1@.len() == 13,
            g2@.len() == 13,
            g1@ == g1_at(k as nat),
            g2@ == g2_at(prn as int, k as nat),
            all == b3i_chips(prn as int),
            out@ == all.take(k as int),
        decreases 10230 - k,
    {
        out.push(chip_of(g1[0] ^ g2[0]));
        assert(out@ =~= all.take(k + 1));
        shift_back(&mut g1, &G1_TAPS);
        shift_back(&mut g2, &G2_TAPS);
        if at_reset(&g1) {
            g1 = all_ones(13);
        }
        k += 1;
        proof {
            lemma_g1(k as nat);
            lemma_register(g20, G2_TAPS@, k as nat);
        }
    }
    assert(all.take(10230) =~= all);
    out
}

} // verus!
