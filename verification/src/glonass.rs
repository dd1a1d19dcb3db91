//! GLONASS L1 and L2 ranging code.
use vstd::prelude::*;
use crate::lfsr::{
    after, all_ones, chip, chip_of, law_stages_are_delays, law_stages_come_out, lemma_register, lemma_xor_bits, ones,
    shift, tap_sum, taps_fit,
};

verus! {

pub const CODE_LEN: usize = 511;

/// Feedback taps of the code register.
pub const CODE_TAPS: [usize; 2] = [5, 9];

pub open spec fn code_chips() -> Seq<i8> {
    Seq::new(511, |k: int| chip(after(ones(9), CODE_TAPS@, k as nat)[6]))
}

/// The code starts with seven chips of -1 and two of 1; after that each chip is the product of
/// those 5 and 9 before it.
pub proof fn law_code_recurrence(k: int)
    requires
        0 <= k < 511,
    ensures
        k < 7 ==> code_chips()[k] == -1,
        7 <= k < 9 ==> code_chips()[k] == 1,
        9 <= k ==> code_chips()[k] == code_chips()[k - 9] * code_chips()[k - 5],
{
    let s = ones(9);
    reveal_with_fuel(tap_sum, 3);
    if k < 7 {
        lemma_up_to_stage7(0, 6 - k);
    } else {
        let j = (k - 7) as nat;
        lemma_register(s, CODE_TAPS@, j);
        lemma_up_to_stage7(j + 1, 0);
        lemma_xor_bits(after(s, CODE_TAPS@, j)[4], 0);
        assert(after(s, CODE_TAPS@, k as nat)[6] == after(s, CODE_TAPS@, j)[4] ^ after(s, CODE_TAPS@, j)[8]);
        lemma_chip_of_sum(after(s, CODE_TAPS@, j)[4], after(s, CODE_TAPS@, j)[8]);
        if k < 9 {
            law_stages_come_out(s, CODE_TAPS@, 0, 4 - j);
            law_stages_come_out(s, CODE_TAPS@, j, 4);
            law_stages_come_out(s, CODE_TAPS@, 0, 8 - j);
            law_stages_come_out(s, CODE_TAPS@, j, 8);
            assert(after(s, CODE_TAPS@, j)[4] == 1 && after(s, CODE_TAPS@, j)[8] == 1);
            lemma_xor_bits(1, 1);
        } else {
            lemma_up_to_stage7(j, 4);
            law_stages_are_delays(s, CODE_TAPS@, (j - 1) as nat, 8);
            law_stages_are_delays(s, CODE_TAPS@, (j - 2) as nat, 7);
            assert(after(s, CODE_TAPS@, j)[4] == after(s, CODE_TAPS@, (k - 5) as nat)[6]);
            assert(after(s, CODE_TAPS@, j)[8] == after(s, CODE_TAPS@, (k - 9) as nat)[6]);
            assert(chip(after(s, CODE_TAPS@, j)[8]) * chip(after(s, CODE_TAPS@, j)[4]) == chip(
                after(s, CODE_TAPS@, j)[4],
            ) * chip(after(s, CODE_TAPS@, j)[8])) by (nonlinear_arith);
        }
    }
}

proof fn lemma_up_to_stage7(k: nat, i: int)
    requires
        0 <= i <= 6,
    ensures
        after(ones(9), CODE_TAPS@, k)[i] == after(ones(9), CODE_TAPS@, (k + 6 - i) as nat)[6],
    decreases 6 - i,
{
    if i < 6 {
        law_stages_are_delays(ones(9), CODE_TAPS@, k, i + 1);
        lemma_up_to_stage7(k + 1, i + 1);
    }
}

proof fn lemma_chip_of_sum(a: u8, b: u8)
    requires
        a <= 1,
        b <= 1,
    ensures
        chip(a ^ b) == chip(a) * chip(b),
{
    lemma_xor_bits(a, b);
    let x = chip(a) as int;
    let y = chip(b) as int;
    assert(x * y == (if x == y {
        1int
    } else {
        -1
    })) by (nonlinear_arith)
        requires
            x == 1 || x == -1,
            y == 1 || y == -1,
    ;
}

/// Code of all GLONASS satellites, taken from stage 7 of its register.
pub fn glonass_code() -> (out: Vec<i8>)
    ensures
        out@ == code_chips(),
{
    assert(taps_fit(CODE_TAPS@, 9));
    let mut reg: Vec<u8> = all_ones(9);
    let ghost all = code_chips();
    let mut out: Vec<i8> = Vec::new();
    let mut k: usize = 0;
    while k < 511
        invariant
            k <= 511,
            taps_fit(CODE_TAPS@, 9),
            reg@.len() == 9,
            reg@ == after(ones(9), CODE_TAPS@, k as nat),
            all == code_chips(),
            out@ == all.take(k as int),
        decreases 511 - k,
    {
        out.push(chip_of(reg[6]));
        assert(out@ =~= all.take(k + 1));
        shift(&mut reg, &CODE_TAPS);
        k += 1;
        proof {
            lemma_register(ones(9), CODE_TAPS@, k as nat);
        }
    }
    assert(all.take(511) =~= all);
    out
}

/// Carrier frequency of channel `k` in the L1 band, in Hz.
pub fn l1_freq(k: i32) -> (f: i64)
    ensures
        f == 1_602_000_000 + 562_500 * k,
{
    1_602_000_000 + 562_500 * (k as i64)
}

/// Carrier frequency of channel `k` in the L2 band, in Hz.
pub fn l2_freq(k: i32) -> (f: i64)
    ensures
        f == 1_246_000_000 + 437_500 * k,
{
    1_246_000_000 + 437_500 * (k as i64)
}

} // verus!
