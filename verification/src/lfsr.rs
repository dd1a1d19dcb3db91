//! Linear feedback shift registers, the source of the ranging codes.
//!
//! A register is a list of bits, its stages, numbered from 1. The feedback is
//! the sum over GF(2) of the stages at the taps.
use vstd::prelude::*;
use vstd::arithmetic::power2::pow2;
use vstd::bits::lemma_u32_shr_is_div;
use crate::bits::is_bits;

verus! {

/// Sum of the stages at the first `n` taps.
pub open spec fn tap_sum(s: Seq<u8>, taps: Seq<usize>, n: int) -> u8
    decreases n,
{
    if n <= 0 {
        0
    } else {
        tap_sum(s, taps, n - 1) ^ s[taps[n - 1] - 1]
    }
}

pub open spec fn feedback_of(s: Seq<u8>, taps: Seq<usize>) -> u8 {
    tap_sum(s, taps, taps.len() as int)
}

/// Whether all taps are stages of the register.
pub open spec fn taps_fit(taps: Seq<usize>, n: int) -> bool {
    forall|i: int| 0 <= i < taps.len() ==> 1 <= #[trigger] taps[i] <= n
}

/// A register of ones.
pub open spec fn ones(n: nat) -> Seq<u8> {
    Seq::new(n, |i: int| 1u8)
}

/// The register after one clock, when the feedback enters at stage 1.
pub open spec fn fed(s: Seq<u8>, taps: Seq<usize>) -> Seq<u8> {
    seq![feedback_of(s, taps)] + s.drop_last()
}

/// The register after `k` clocks, when the feedback enters at stage 1.
pub open spec fn after(s: Seq<u8>, taps: Seq<usize>, k: nat) -> Seq<u8>
    decreases k,
{
    if k == 0 {
        s
    } else {
        fed(after(s, taps, (k - 1) as nat), taps)
    }
}

/// The register after one clock, when the feedback enters at the last stage.
pub open spec fn fed_back(s: Seq<u8>, taps: Seq<usize>) -> Seq<u8> {
    s.skip(1).push(feedback_of(s, taps))
}

/// The register after `k` clocks, when the feedback enters at the last stage.
pub open spec fn after_back(s: Seq<u8>, taps: Seq<usize>, k: nat) -> Seq<u8>
    decreases k,
{
    if k == 0 {
        s
    } else {
        fed_back(after_back(s, taps, (k - 1) as nat), taps)
    }
}

pub proof fn lemma_xor_bits(a: u8, b: u8)
    by (bit_vector)
    ensures
        a <= 1 && b <= 1 ==> a ^ b <= 1,
        a <= 1 && b <= 1 ==> a ^ b == (if a == b { 0u8 } else { 1u8 }),
        0u8 ^ a == a,
{
}

pub proof fn lemma_tap_sum(s: Seq<u8>, taps: Seq<usize>, n: int)
    requires
        is_bits(s),
        taps_fit(taps, s.len() as int),
        0 <= n <= taps.len(),
    ensures
        tap_sum(s, taps, n) <= 1,
    decreases n,
{
    if n > 0 {
        lemma_tap_sum(s, taps, n - 1);
        assert(1 <= taps[n - 1] <= s.len());
        assert(s[taps[n - 1] - 1] <= 1);
        lemma_xor_bits(tap_sum(s, taps, n - 1), s[taps[n - 1] - 1]);
    }
}

/// A register keeps its length and holds bits at all times.
pub proof fn lemma_register(s: Seq<u8>, taps: Seq<usize>, k: nat)
    requires
        s.len() > 0,
        is_bits(s),
        taps_fit(taps, s.len() as int),
    ensures
        after(s, taps, k).len() == s.len(),
        is_bits(after(s, taps, k)),
        after_back(s, taps, k).len() == s.len(),
        is_bits(after_back(s, taps, k)),
    decreases k,
{
    if k > 0 {
        lemma_register(s, taps, (k - 1) as nat);
        lemma_tap_sum(after(s, taps, (k - 1) as nat), taps, taps.len() as int);
        lemma_tap_sum(after_back(s, taps, (k - 1) as nat), taps, taps.len() as int);
    }
}

/// Clocking in two goes is clocking once for both.
pub proof fn law_clocks_add_up(s: Seq<u8>, taps: Seq<usize>, a: nat, b: nat)
    ensures
        after(after(s, taps, a), taps, b) == after(s, taps, a + b),
        after_back(after_back(s, taps, a), taps, b) == after_back(s, taps, a + b),
    decreases b,
{
    if b > 0 {
        law_clocks_add_up(s, taps, a, (b - 1) as nat);
    }
}

/// Each stage repeats the one before it one clock later.
pub proof fn law_stages_are_delays(s: Seq<u8>, taps: Seq<usize>, k: nat, i: int)
    requires
        s.len() > 0,
        is_bits(s),
        taps_fit(taps, s.len() as int),
        1 <= i < s.len(),
    ensures
        after(s, taps, k + 1)[i] == after(s, taps, k)[i - 1],
        after_back(s, taps, k + 1)[i - 1] == after_back(s, taps, k)[i],
{
    lemma_register(s, taps, k);
}

/// What stands in a stage leaves the register as many clocks later as there are stages to
/// go, and the feedback leaves it when it has gone through all of them.
pub proof fn law_stages_come_out(s: Seq<u8>, taps: Seq<usize>, k: nat, i: int)
    requires
        s.len() > 0,
        is_bits(s),
        taps_fit(taps, s.len() as int),
        0 <= i < s.len(),
    ensures
        after(s, taps, k)[i] == after(s, taps, (k + s.len() - 1 - i) as nat)[s.len() - 1],
        after_back(s, taps, k)[i] == after_back(s, taps, (k + i) as nat)[0],
        feedback_of(after(s, taps, k), taps) == after(s, taps, k + s.len())[s.len() - 1],
        feedback_of(after_back(s, taps, k), taps) == after_back(s, taps, k + s.len())[0],
{
    lemma_stage_to_last(s, taps, k, i);
    lemma_stage_to_first(s, taps, k, i);
    lemma_register(s, taps, k);
    lemma_stage_to_last(s, taps, k + 1, 0);
    lemma_stage_to_first(s, taps, k + 1, s.len() - 1);
}

proof fn lemma_stage_to_last(s: Seq<u8>, taps: Seq<usize>, k: nat, i: int)
    requires
        s.len() > 0,
        is_bits(s),
        taps_fit(taps, s.len() as int),
        0 <= i < s.len(),
    ensures
        after(s, taps, k)[i] == after(s, taps, (k + s.len() - 1 - i) as nat)[s.len() - 1],
    decreases s.len() - i,
{
    if i < s.len() - 1 {
        law_stages_are_delays(s, taps, k, i + 1);
        lemma_stage_to_last(s, taps, k + 1, i + 1);
    }
}

proof fn lemma_stage_to_first(s: Seq<u8>, taps: Seq<usize>, k: nat, i: int)
    requires
        s.len() > 0,
        is_bits(s),
        taps_fit(taps, s.len() as int),
        0 <= i < s.len(),
    ensures
        after_back(s, taps, k)[i] == after_back(s, taps, (k + i) as nat)[0],
    decreases i,
{
    if i > 0 {
        law_stages_are_delays(s, taps, k, i);
        lemma_stage_to_first(s, taps, k + 1, i - 1);
    }
}

/// Sum of the stages at the taps.
pub fn feedback(s: &[u8], taps: &[usize]) -> (b: u8)
    requires
        taps_fit(taps@, s@.len() as int),
    ensures
        b == feedback_of(s@, taps@),
{
    let mut b: u8 = 0;
    let mut i: usize = 0;
    while i < taps.len()
        invariant
            i <= taps@.len(),
            taps_fit(taps@, s@.len() as int),
            b == tap_sum(s@, taps@, i as int),
        decreases taps@.len() - i,
    {
        assert(1 <= taps@[i as int] <= s@.len());
        b = b ^ s[taps[i] - 1];
        i += 1;
    }
    b
}

/// Clocks a register once; the feedback enters at stage 1.
pub fn shift(s: &mut Vec<u8>, taps: &[usize])
    requires
        old(s)@.len() > 0,
        taps_fit(taps@, old(s)@.len() as int),
    ensures
        final(s)@ == fed(old(s)@, taps@),
{
    let ghost before = s@;
    let b: u8 = feedback(s.as_slice(), taps);
    let last: Option<u8> = s.pop();
    s.insert(0, b);
    assert(s@ =~= fed(before, taps@));
}

/// Clocks a register once; the feedback enters at the last stage.
pub fn shift_back(s: &mut Vec<u8>, taps: &[usize])
    requires
        old(s)@.len() > 0,
        taps_fit(taps@, old(s)@.len() as int),
    ensures
        final(s)@ == fed_back(old(s)@, taps@),
{
    let ghost before = s@;
    let b: u8 = feedback(s.as_slice(), taps);
    let first: u8 = s.remove(0);
    s.push(b);
    assert(s@ =~= fed_back(before, taps@));
}

/// A register of ones.
pub fn all_ones(n: usize) -> (s: Vec<u8>)
    ensures
        s@ == ones(n as nat),
{
    let mut s: Vec<u8> = Vec::new();
    let mut i: usize = 0;
    while i < n
        invariant
            i <= n,
            s@ == ones(i as nat),
        decreases n - i,
    {
        s.push(1);
        i += 1;
        assert(s@ =~= ones(i as nat));
    }
    s
}

/// Signal value of a code bit: 1 for a zero, -1 for a one.
pub open spec fn chip(b: u8) -> i8 {
    if b == 0 {
        1
    } else {
        (-1) as i8
    }
}

/// Signal value of a code bit.
pub fn chip_of(b: u8) -> (c: i8)
    ensures
        c == chip(b),
{
    if b == 0 {
        1
    } else {
        -1
    }
}

/// The low `n` bits of a number, the lowest first.
pub open spec fn low_bits(v: u32, n: nat) -> Seq<u8> {
    Seq::new(n, |k: int| ((v >> (k as u32)) & 1) as u8)
}

/// The low `n` bits of a number, the lowest first.
pub fn load_bits(v: u32, n: usize) -> (s: Vec<u8>)
    requires
        n <= 32,
    ensures
        s@ == low_bits(v, n as nat),
        is_bits(s@),
{
    let mut s: Vec<u8> = Vec::new();
    let mut k: usize = 0;
    while k < n
        invariant
            k <= n <= 32,
            s@ == low_bits(v, k as nat),
            is_bits(s@),
        decreases n - k,
    {
        let b: u32 = (v >> (k as u32)) & 1;
        proof {
            lemma_low_bit(v >> (k as u32));
        }
        s.push(b as u8);
        k += 1;
        assert(s@ =~= low_bits(v, k as nat));
    }
    s
}

proof fn lemma_low_bit(v: u32)
    by (bit_vector)
    ensures
        v & 1 <= 1,
        v & 1 == v % 2,
{
}

/// A bit of a number is the remainder by two of its quotient by the weight of the bit.
pub proof fn lemma_bit_of_number(v: u32, k: u32)
    requires
        k < 32,
    ensures
        (v >> k) & 1 == (v as int / pow2(k as nat) as int) % 2,
{
    lemma_low_bit(v >> k);
    lemma_u32_shr_is_div(v, k);
}

pub proof fn lemma_low_bits(v: u32, n: nat)
    ensures
        is_bits(low_bits(v, n)),
{
    assert forall|k: int| 0 <= k < n implies #[trigger] low_bits(v, n)[k] <= 1 by {
        lemma_low_bit(v >> (k as u32));
    }
}

/// The stages below `n` whose bits are set in a mask.
pub open spec fn mask_taps(mask: u32, n: int) -> Seq<usize>
    decreases n,
{
    if n <= 0 {
        Seq::empty()
    } else if (mask >> ((n - 1) as u32)) & 1 == 1 {
        mask_taps(mask, n - 1).push(n as usize)
    } else {
        mask_taps(mask, n - 1)
    }
}

/// The stages below `n` whose bits are set in a mask.
pub fn taps_of(mask: u32, n: usize) -> (taps: Vec<usize>)
    requires
        n <= 32,
    ensures
        taps@ == mask_taps(mask, n as int),
        taps_fit(taps@, n as int),
{
    let mut taps: Vec<usize> = Vec::new();
    let mut k: usize = 0;
    while k < n
        invariant
            k <= n <= 32,
            taps@ == mask_taps(mask, k as int),
            taps_fit(taps@, k as int),
        decreases n - k,
    {
        if (mask >> (k as u32)) & 1 == 1 {
            taps.push(k + 1);
        }
        k += 1;
    }
    taps
}

/// The bits that leave stage 1 of a register of `stages` bits, over `n` clocks.
pub open spec fn stream(init: u32, mask: u32, stages: nat, n: nat) -> Seq<u8> {
    Seq::new(n, |k: int| after_back(low_bits(init, stages), mask_taps(mask, stages as int), k as nat)[0])
}

/// The first bits of a stream are those of its start, the lowest first; each further one is
/// the sum over the taps of the mask of the bits that stand there `stages` clocks before it.
pub proof fn law_stream_recurrence(init: u32, mask: u32, stages: nat, n: nat, k: int)
    requires
        1 <= stages <= 32,
        0 <= k < n,
    ensures
        k < stages ==> stream(init, mask, stages, n)[k] == low_bits(init, stages)[k],
        k + stages < n ==> stream(init, mask, stages, n)[k + stages] == tap_sum(
            stream(init, mask, stages, n).skip(k),
            mask_taps(mask, stages as int),
            mask_taps(mask, stages as int).len() as int,
        ),
{
    let s = low_bits(init, stages);
    let taps = mask_taps(mask, stages as int);
    lemma_low_bits(init, stages);
    lemma_mask_taps(mask, stages as int);
    if k < stages {
        law_stages_come_out(s, taps, 0, k);
    }
    if k + stages < n {
        law_stages_come_out(s, taps, k as nat, 0);
        let now = after_back(s, taps, k as nat);
        let later = stream(init, mask, stages, n).skip(k);
        assert forall|i: int| 0 <= i < stages implies now[i] == later[i] by {
            law_stages_come_out(s, taps, k as nat, i);
        }
        lemma_same_sum(now, later, taps, stages as int, taps.len() as int);
    }
}

proof fn lemma_same_sum(a: Seq<u8>, b: Seq<u8>, taps: Seq<usize>, stages: int, n: int)
    requires
        taps_fit(taps, stages),
        0 <= n <= taps.len(),
        forall|i: int| 0 <= i < stages ==> a[i] == b[i],
    ensures
        tap_sum(a, taps, n) == tap_sum(b, taps, n),
    decreases n,
{
    if n > 0 {
        lemma_same_sum(a, b, taps, stages, n - 1);
        assert(1 <= taps[n - 1] <= stages);
    }
}

proof fn lemma_mask_taps(mask: u32, n: int)
    requires
        0 <= n <= 32,
    ensures
        taps_fit(mask_taps(mask, n), n),
    decreases n,
{
    if n > 0 {
        lemma_mask_taps(mask, n - 1);
    }
}

/// The bits that leave a register of `stages` bits, given as a number, whose
/// feedback taps are the bits of a mask.
pub fn run_mask(n: usize, init: u32, mask: u32, stages: usize) -> (out: Vec<u8>)
    requires
        1 <= stages <= 32,
    ensures
        out@ == stream(init, mask, stages as nat, n as nat),
        is_bits(out@),
{
    let taps: Vec<usize> = taps_of(mask, stages);
    let mut s: Vec<u8> = load_bits(init, stages);
    let ghost s0 = s@;
    let ghost all = stream(init, mask, stages as nat, n as nat);
    let mut out: Vec<u8> = Vec::new();
    let mut k: usize = 0;
    while k < n
        invariant
            k <= n,
            1 <= stages <= 32,
            s0 == low_bits(init, stages as nat),
            is_bits(s0),
            taps@ == mask_taps(mask, stages as int),
            taps_fit(taps@, stages as int),
            s@.len() == stages,
            s@ == after_back(s0, taps@, k as nat),
            all == stream(init, mask, stages as nat, n as nat),
            out@ == all.take(k as int),
            is_bits(out@),
        decreases n - k,
    {
        proof {
            lemma_register(s0, taps@, k as nat);
        }
        out.push(s[0]);
        assert(out@ =~= all.take(k + 1));
        shift_back(&mut s, taps.as_slice());
        k += 1;
    }
    assert(all.take(n as int) =~= all);
    out
}

} // verus!
