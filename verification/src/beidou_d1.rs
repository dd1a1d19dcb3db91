//! BeiDou D1 navigation message: BCH(15,11) words, subframe framing and
//! ephemeris extraction.
//!
//! Every word but the first carries two interleaved BCH blocks; the first has
//! one block behind 15 plain bits. The code is perfect: any block is within one
//! bit of exactly one codeword, so a block alone proves nothing, and a subframe
//! is kept only when a neighbour in the stream agrees with it.
use vstd::prelude::*;
use crate::double::{less, twice, value};
use crate::pick::distances;
use crate::bits::{bits_value, is_bits, lemma_signed_bound, lemma_value_bound, sbits, signed_at, signed_value, ubits, unsigned_at};
use vstd::arithmetic::power2::{lemma2_to64, lemma_pow2_unfold, pow2};

verus! {

/// Seconds by which BDT is behind GPS time.
pub const BDT_GPST_OFFSET: u32 = 14;

pub const WEEK_S: u32 = 604800;

/// Gravitational constant of the earth for BeiDou orbits, in m^3/s^2.
pub const MU_BDS: i64 = 398_600_441_800_000;

/// Rotation rate of the earth for BeiDou orbits, in units of 10^-15 rad/s.
pub const OMEGA_BDS: i64 = 72_921_150_000;

/// Neumann-Hoffman secondary code.
pub const NH20: [i8; 20] = [1, 1, 1, 1, 1, -1, 1, 1, -1, -1, 1, -1, 1, -1, 1, -1, -1, 1, -1, 1];

pub const PREAMBLE: [u8; 11] = [1, 1, 1, 0, 0, 0, 1, 0, 0, 1, 0];

/// Register content that marks a clean block.
pub const BCH_COSET: u8 = 8;

/// Seconds of week in GPS time of a second of week in BDT.
pub fn sow_bdt_to_gpst(sow_bdt: u32) -> (r: u32)
    requires
        sow_bdt + 14 <= u32::MAX,
    ensures
        r == (sow_bdt + 14) % 604800,
{
    (sow_bdt + BDT_GPST_OFFSET) % WEEK_S
}

// ------------------------------------------------------------------- BCH
/// Register of x^4 + x + 1 after one more bit. The stages are r0 (weight 8) to
/// r3 (weight 1); r3 feeds back into r0 and r1.
pub open spec fn bch_step(r: u8, b: u8) -> u8 {
    (r >> 1) ^ (if r & 1 == 1 { 12u8 } else { 0u8 }) ^ (b << 3)
}

/// Register after the first `k` bits.
pub open spec fn bch_register(block: Seq<u8>, k: int) -> u8
    decreases k,
{
    if k <= 0 {
        0
    } else {
        bch_step(bch_register(block, k - 1), block[k - 1])
    }
}

/// Register after a whole block of 15 bits.
pub open spec fn bch_syndrome(block: Seq<u8>) -> u8 {
    bch_register(block, 15)
}

/// What one flipped bit, `j` places before the end, adds to the register.
pub open spec fn flip_syndrome(j: int) -> u8 {
    if j == 0 { 8 } else if j == 1 { 4 } else if j == 2 { 2 } else if j == 3 { 1 } else if j == 4 { 12 }
    else if j == 5 { 6 } else if j == 6 { 3 } else if j == 7 { 13 } else if j == 8 { 10 } else if j == 9 { 5 }
    else if j == 10 { 14 } else if j == 11 { 7 } else if j == 12 { 15 } else if j == 13 { 11 } else { 9 }
}

/// Place of the flipped bit that a nonzero difference points at.
pub open spec fn flip_place(s: u8) -> int {
    if s == 8 { 14 } else if s == 4 { 13 } else if s == 2 { 12 } else if s == 1 { 11 } else if s == 12 { 10 }
    else if s == 6 { 9 } else if s == 3 { 8 } else if s == 13 { 7 } else if s == 10 { 6 } else if s == 5 { 5 }
    else if s == 14 { 4 } else if s == 7 { 3 } else if s == 15 { 2 } else if s == 11 { 1 } else { 0 }
}

/// Whether a block of 15 bits is free of errors.
pub open spec fn clean(block: Seq<u8>) -> bool {
    bch_syndrome(block) == BCH_COSET
}

pub open spec fn flipped(block: Seq<u8>, p: int) -> Seq<u8> {
    block.update(p, block[p] ^ 1)
}

/// The clean block nearest to a block of 15 bits.
pub open spec fn nearest_clean(block: Seq<u8>) -> Seq<u8> {
    if clean(block) {
        block
    } else {
        flipped(block, flip_place(bch_syndrome(block) ^ BCH_COSET))
    }
}

/// The 11 data bits of a block after correction.
pub open spec fn bch_data(block: Seq<u8>) -> Seq<u8> {
    nearest_clean(block.take(15)).take(11)
}

proof fn lemma_bch_bits(r: u8, q: u8, b: u8, c: u8)
    by (bit_vector)
    ensures
        bch_step(r ^ q, b ^ c) == bch_step(r, b) ^ bch_step(q, c),
        r <= 15 && b <= 1 ==> bch_step(r, b) <= 15,
        r ^ 0 == r,
        b ^ 0 == b,
        r ^ r == 0,
        r <= 15 && r != 8 ==> r ^ 8 != 0 && r ^ 8 <= 15,
        r ^ (r ^ 8) == 8,
        bch_step(0, 1) == 8,
        bch_step(8, 0) == 4 && bch_step(4, 0) == 2 && bch_step(2, 0) == 1 && bch_step(1, 0) == 12,
        bch_step(12, 0) == 6 && bch_step(6, 0) == 3 && bch_step(3, 0) == 13 && bch_step(13, 0) == 10,
        bch_step(10, 0) == 5 && bch_step(5, 0) == 14 && bch_step(14, 0) == 7 && bch_step(7, 0) == 15,
        bch_step(15, 0) == 11 && bch_step(11, 0) == 9,
        b <= 1 ==> b ^ 1 == 1 - b,
        r ^ q == 0 ==> r == q,
        (r ^ q) ^ q == r,
{
}

proof fn lemma_register_bound(block: Seq<u8>, k: int)
    requires
        is_bits(block),
        0 <= k <= block.len(),
    ensures
        bch_register(block, k) <= 15,
    decreases k,
{
    if k > 0 {
        lemma_register_bound(block, k - 1);
        lemma_bch_bits(bch_register(block, k - 1), 0, block[k - 1], 0);
    }
}

proof fn lemma_flip_register(block: Seq<u8>, p: int, k: int)
    requires
        0 <= p < block.len() <= 15,
        0 <= k <= block.len(),
    ensures
        bch_register(flipped(block, p), k) == (if k <= p {
            bch_register(block, k)
        } else {
            bch_register(block, k) ^ flip_syndrome(k - 1 - p)
        }),
    decreases k,
{
    if k > 0 {
        lemma_flip_register(block, p, k - 1);
        let r = bch_register(block, k - 1);
        let b = block[k - 1];
        lemma_bch_bits(r, 0, b, 1);
        if k - 1 > p {
            lemma_bch_bits(r, flip_syndrome(k - 2 - p), b, 0);
        }
    }
}

proof fn lemma_take_register(block: Seq<u8>, n: int, k: int)
    requires
        0 <= k <= n <= block.len(),
    ensures
        bch_register(block.take(n), k) == bch_register(block, k),
    decreases k,
{
    if k > 0 {
        lemma_take_register(block, n, k - 1);
    }
}

/// Correction always arrives at a clean block, at most one bit away.
pub proof fn law_every_block_is_near_a_clean_one(block: Seq<u8>)
    requires
        block.len() == 15,
        is_bits(block),
    ensures
        clean(nearest_clean(block)),
        is_bits(nearest_clean(block)),
        nearest_clean(block) == block || exists|p: int|
            0 <= p < 15 && nearest_clean(block) == #[trigger] flipped(block, p),
{
    let s = bch_syndrome(block);
    lemma_register_bound(block, 15);
    lemma_bch_bits(s, 0, 0, 0);
    if !clean(block) {
        let p = flip_place(s ^ BCH_COSET);
        lemma_flip_register(block, p, 15);
        lemma_bch_bits(0, 0, block[p], 0);
        assert(flip_syndrome(14 - p) == s ^ BCH_COSET);
        assert(nearest_clean(block) == flipped(block, p));
    }
}

/// A clean block with one flipped bit is restored.
pub proof fn law_single_errors_are_corrected(block: Seq<u8>, p: int)
    requires
        block.len() == 15,
        is_bits(block),
        clean(block),
        0 <= p < 15,
    ensures
        nearest_clean(block) == block,
        nearest_clean(flipped(block, p)) == block,
{
    let f = flip_syndrome(14 - p);
    lemma_flip_register(block, p, 15);
    lemma_bch_bits(BCH_COSET, f, block[p], 0);
    lemma_bch_bits(f, BCH_COSET, block[p], 0);
    lemma_xor_commutes(BCH_COSET, f);
    assert(f != 0);
    assert(bch_syndrome(flipped(block, p)) == BCH_COSET ^ f);
    assert((BCH_COSET ^ f) ^ BCH_COSET == f);
    assert(flip_place(f) == p);
    lemma_xor_commutes(0, block[p]);
    assert(flipped(flipped(block, p), p) =~= block);
}

proof fn lemma_xor_commutes(a: u8, b: u8)
    by (bit_vector)
    ensures
        a ^ b == b ^ a,
        b != 0 ==> a ^ b != a,
        (b ^ 1) ^ 1 == b,
{
}

/// Two clean blocks that differ in one bit at most are the same.
pub proof fn law_clean_blocks_are_apart(block: Seq<u8>, p: int)
    requires
        block.len() == 15,
        is_bits(block),
        clean(block),
        0 <= p < 15,
    ensures
        !clean(flipped(block, p)),
{
    lemma_flip_register(block, p, 15);
    lemma_xor_commutes(BCH_COSET, flip_syndrome(14 - p));
}

/// The clean block within one bit of a block is the one that correction arrives at.
pub proof fn law_nearest_clean_block_is_unique(block: Seq<u8>, w: Seq<u8>, p: int)
    requires
        block.len() == 15,
        is_bits(block),
        is_bits(w),
        clean(w),
        0 <= p < 15,
        w == block || w == flipped(block, p),
    ensures
        w == nearest_clean(block),
{
    law_single_errors_are_corrected(w, p);
    if w != block {
        lemma_xor_commutes(0, block[p]);
        assert(flipped(w, p) =~= block);
    }
}

/// Whether the elements that are read as a block, the first 15 at most, are bits.
pub open spec fn bits_in_front(block: Seq<u8>) -> bool {
    forall|i: int| 0 <= i < block.len() && i < 15 ==> #[trigger] block[i] <= 1
}

/// Register of a block of up to 15 bits.
pub fn bch_lfsr(block: &[u8]) -> (r: u8)
    requires
        bits_in_front(block@),
    ensures
        r == bch_register(block@, if block@.len() < 15 { block@.len() as int } else { 15 }),
        r <= 15,
{
    let n: usize = if block.len() < 15 { block.len() } else { 15 };
    let mut r: u8 = 0;
    let mut i: usize = 0;
    while i < n
        invariant
            i <= n <= block@.len(),
            r == bch_register(block@, i as int),
        decreases n - i,
    {
        r = (r >> 1) ^ (if r & 1 == 1 { 12u8 } else { 0u8 }) ^ (block[i] << 3);
        i += 1;
    }
    proof {
        lemma_take_register(block@, n as int, n as int);
        lemma_register_bound(block@.take(n as int), n as int);
    }
    r
}

/// Corrects a block of 15 bits and gives its 11 data bits.
pub fn bch_decode(block: &[u8]) -> (d: [u8; 11])
    requires
        block@.len() >= 15,
        bits_in_front(block@),
    ensures
        d@ == bch_data(block@),
        is_bits(d@),
{
    let ghost w = block@.take(15);
    let s: u8 = bch_lfsr(block) ^ BCH_COSET;
    proof {
        lemma_take_register(block@, 15, 15);
        lemma_bch_bits(bch_syndrome(w), 0, 0, 0);
        lemma_bch_bits(bch_syndrome(w), BCH_COSET, 0, 0);
        law_every_block_is_near_a_clean_one(w);
    }
    let mut d: [u8; 11] = [0u8; 11];
    let mut i: usize = 0;
    while i < 11
        invariant
            block@.len() >= 15,
            i <= 11,
            forall|k: int| 0 <= k < i ==> #[trigger] d@[k] == block@[k],
        decreases 11 - i,
    {
        d[i] = block[i];
        i += 1;
    }
    if s != 0 {
        let mut u: u8 = 8;
        let mut p: usize = 14;
        while u != s
            invariant
                s != 0,
                s <= 15,
                p <= 14,
                u == flip_syndrome(14 - p),
                flip_place(s) <= p,
            decreases p,
        {
            proof {
                lemma_bch_bits(0, 0, 0, 0);
            }
            u = (u >> 1) ^ (if u & 1 == 1 { 12u8 } else { 0u8 });
            proof {
                assert(flip_syndrome(14 - flip_place(s)) == s);
                lemma_bch_bits(u, 0, 0, 0);
                lemma_step_zero(flip_syndrome(14 - p));
            }
            p -= 1;
        }
        assert(p == flip_place(s));
        if p < 11 {
            d[p] = d[p] ^ 1;
        }
    }
    assert(d@ =~= bch_data(block@));
    d
}

proof fn lemma_step_zero(u: u8)
    by (bit_vector)
    ensures
        (u >> 1) ^ (if u & 1 == 1 { 12u8 } else { 0u8 }) == bch_step(u, 0),
{
}

// ---------------------------------------------------------------- fields
/// Unsigned field of `n` bits at `pos`.
pub fn bu(d: &[u8], pos: usize, n: usize) -> (v: u64)
    requires
        pos + n <= d@.len(),
        n <= 64,
    ensures
        v == unsigned_at(d@, pos as int, n as int),
        n < 64 ==> v < pow2(n as nat),
{
    ubits(d, pos, n)
}

/// Signed field of `n` bits at `pos`.
pub fn bi(d: &[u8], pos: usize, n: usize) -> (v: i64)
    requires
        pos + n <= d@.len(),
        1 <= n <= 62,
    ensures
        v == signed_at(d@, pos as int, n as int),
        -pow2((n - 1) as nat) <= v < pow2((n - 1) as nat),
{
    sbits(d, pos, n)
}

/// Bits of a field that is split over two words.
pub open spec fn split_bits(d: Seq<u8>, p1: int, l1: int, p2: int, l2: int) -> Seq<u8> {
    d.subrange(p1, p1 + l1) + d.subrange(p2, p2 + l2)
}

fn joined(d: &[u8], p1: usize, l1: usize, p2: usize, l2: usize) -> (v: Vec<u8>)
    requires
        p1 + l1 <= d@.len(),
        p2 + l2 <= d@.len(),
    ensures
        v@ == split_bits(d@, p1 as int, l1 as int, p2 as int, l2 as int),
        v@.len() == l1 + l2,
{
    let len: usize = d.len();
    let ghost all = split_bits(d@, p1 as int, l1 as int, p2 as int, l2 as int);
    let mut v: Vec<u8> = Vec::new();
    let mut i: usize = 0;
    while i < l1
        invariant
            len == d@.len(),
            p1 + l1 <= len,
            p2 + l2 <= len,
            i <= l1,
            all == split_bits(d@, p1 as int, l1 as int, p2 as int, l2 as int),
            v@ == all.take(i as int),
        decreases l1 - i,
    {
        v.push(d[p1 + i]);
        assert(v@ =~= all.take(i + 1));
        i += 1;
    }
    let mut j: usize = 0;
    while j < l2
        invariant
            len == d@.len(),
            p1 + l1 <= len,
            p2 + l2 <= len,
            j <= l2,
            all == split_bits(d@, p1 as int, l1 as int, p2 as int, l2 as int),
            v@ == all.take(l1 + j),
        decreases l2 - j,
    {
        v.push(d[p2 + j]);
        assert(v@ =~= all.take(l1 + j + 1));
        j += 1;
    }
    assert(all.take(l1 + l2) =~= all);
    v
}

/// Unsigned field split over two places.
pub fn u2(d: &[u8], p1: usize, l1: usize, p2: usize, l2: usize) -> (v: u64)
    requires
        p1 + l1 <= d@.len(),
        p2 + l2 <= d@.len(),
        l1 + l2 <= 64,
    ensures
        v == bits_value(split_bits(d@, p1 as int, l1 as int, p2 as int, l2 as int)),
        l1 + l2 < 64 ==> v < pow2((l1 + l2) as nat),
{
    let b: Vec<u8> = joined(d, p1, l1, p2, l2);
    assert(b@.subrange(0, l1 + l2) =~= b@);
    ubits(b.as_slice(), 0, l1 + l2)
}

/// Signed field split over two places.
pub fn s2(d: &[u8], p1: usize, l1: usize, p2: usize, l2: usize) -> (v: i64)
    requires
        p1 + l1 <= d@.len(),
        p2 + l2 <= d@.len(),
        1 <= l1 + l2 <= 62,
    ensures
        v == signed_value(split_bits(d@, p1 as int, l1 as int, p2 as int, l2 as int)),
{
    let b: Vec<u8> = joined(d, p1, l1, p2, l2);
    assert(b@.subrange(0, l1 + l2) =~= b@);
    sbits(b.as_slice(), 0, l1 + l2)
}

// --------------------------------------------------------------- framing
/// A decoded subframe. The data bits keep the places of the words; what held
/// check bits is zero, but for the first word.
#[derive(Clone, Copy)]
pub struct D1Subframe {
    /// subframe number, 1 to 5
    pub frid: u8,
    /// seconds of week, BDT
    pub sow_bdt: u32,
    pub data: [u8; 300],
    /// where in the bit stream it starts
    pub bit_index: usize,
}

/// What a subframe holds.
pub struct SubframeView {
    pub frid: int,
    pub sow: int,
    pub data: Seq<u8>,
    pub at: int,
}

impl View for D1Subframe {
    type V = SubframeView;

    open spec fn view(&self) -> SubframeView {
        SubframeView { frid: self.frid as int, sow: self.sow_bdt as int, data: self.data@, at: self.bit_index as int }
    }
}

/// Every second bit of a word, from `j` on.
pub open spec fn word_block(win: Seq<u8>, wd: int, j: int) -> Seq<u8> {
    Seq::new(15, |k: int| win[30 * wd + 2 * k + j])
}

/// The data bits of a subframe of 300 bits after correction.
pub open spec fn subframe_data(win: Seq<u8>) -> Seq<u8> {
    Seq::new(
        300,
        |i: int|
            if i < 15 || 26 <= i < 30 {
                win[i]
            } else if i < 30 {
                bch_data(win.subrange(15, 30))[i - 15]
            } else if i % 30 < 11 {
                bch_data(word_block(win, i / 30, 0))[i % 30]
            } else if i % 30 < 22 {
                bch_data(word_block(win, i / 30, 1))[i % 30 - 11]
            } else {
                0u8
            },
    )
}

/// A subframe number from 1 to 5, and a second of week that subframes start at.
pub open spec fn plausible(data: Seq<u8>) -> bool {
    let sow = bits_value(split_bits(data, 18, 8, 30, 12));
    1 <= unsigned_at(data, 15, 3) <= 5 && sow < 604800 && sow % 6 == 0
}

/// The subframe that 300 bits hold, unless they hold none.
pub open spec fn subframe_of(win: Seq<u8>, at: int) -> Option<SubframeView> {
    let data = subframe_data(win);
    if plausible(data) {
        Some(
            SubframeView {
                frid: unsigned_at(data, 15, 3) as int,
                sow: bits_value(split_bits(data, 18, 8, 30, 12)) as int,
                data,
                at,
            },
        )
    } else {
        None
    }
}

pub open spec fn inverted(s: Seq<u8>) -> Seq<u8> {
    Seq::new(s.len(), |i: int| (1 - s[i]) as u8)
}

/// The subframe at one place of a bit stream of either polarity.
pub open spec fn candidate_at(bits: Seq<u8>, i: int) -> Option<SubframeView> {
    let win = bits.subrange(i, i + 300);
    if win.take(11) == PREAMBLE@ {
        subframe_of(win, i)
    } else if win.take(11) == inverted(PREAMBLE@) {
        subframe_of(inverted(win), i)
    } else {
        None
    }
}

/// The candidates among the first `n` places.
pub open spec fn candidates(bits: Seq<u8>, n: int) -> Seq<SubframeView>
    decreases n,
{
    if n <= 0 {
        Seq::empty()
    } else {
        match candidate_at(bits, n - 1) {
            Some(c) => candidates(bits, n - 1).push(c),
            None => candidates(bits, n - 1),
        }
    }
}

/// Number of places at which a subframe can start.
pub open spec fn starts(len: int) -> int {
    if len < 300 {
        0
    } else {
        len - 299
    }
}

/// Whether `b` is the subframe that follows `a`.
pub open spec fn follows(a: SubframeView, b: SubframeView) -> bool {
    b.at == a.at + 300 && b.sow == (a.sow + 6) % 604800 && b.frid == a.frid % 5 + 1
}

pub open spec fn neighbours(a: SubframeView, b: SubframeView) -> bool {
    follows(a, b) || follows(b, a)
}

/// Whether some candidate is a neighbour of candidate `k`.
pub open spec fn supported(c: Seq<SubframeView>, k: int) -> bool {
    exists|j: int| 0 <= j < c.len() && neighbours(c[k], #[trigger] c[j])
}

/// The supported ones among the first `n` candidates.
pub open spec fn kept(c: Seq<SubframeView>, n: int) -> Seq<SubframeView>
    decreases n,
{
    if n <= 0 {
        Seq::empty()
    } else if supported(c, n - 1) {
        kept(c, n - 1).push(c[n - 1])
    } else {
        kept(c, n - 1)
    }
}

/// The subframes of a bit stream.
pub open spec fn subframes(bits: Seq<u8>) -> Seq<SubframeView> {
    let c = candidates(bits, starts(bits.len() as int));
    kept(c, c.len() as int)
}

pub open spec fn views(v: Seq<D1Subframe>) -> Seq<SubframeView> {
    Seq::new(v.len(), |i: int| v[i]@)
}

proof fn lemma_kept_supported(c: Seq<SubframeView>, n: int, k: int)
    requires
        0 <= n <= c.len(),
        0 <= k < kept(c, n).len(),
    ensures
        exists|m: int| 0 <= m < n && #[trigger] c[m] == kept(c, n)[k] && supported(c, m),
    decreases n,
{
    if n > 0 {
        if supported(c, n - 1) && k == kept(c, n).len() - 1 {
            assert(c[n - 1] == kept(c, n)[k]);
        } else {
            lemma_kept_supported(c, n - 1, k);
            let m = choose|m: int| 0 <= m < n - 1 && #[trigger] c[m] == kept(c, n - 1)[k] && supported(c, m);
            assert(c[m] == kept(c, n)[k]);
        }
    }
}

proof fn lemma_kept_complete(c: Seq<SubframeView>, n: int, m: int)
    requires
        0 <= m < n <= c.len(),
        supported(c, m),
    ensures
        kept(c, n).contains(c[m]),
    decreases n,
{
    if m == n - 1 {
        assert(kept(c, n).last() == c[m]);
        assert(kept(c, n)[kept(c, n).len() - 1] == c[m]);
    } else {
        lemma_kept_complete(c, n - 1, m);
        let k = kept(c, n - 1).index_of(c[m]);
        assert(kept(c, n)[k] == c[m]);
    }
}

/// Every kept subframe has a neighbour that is kept too.
pub proof fn law_kept_subframes_have_neighbours(bits: Seq<u8>, k: int)
    requires
        0 <= k < subframes(bits).len(),
    ensures
        exists|j: int| 0 <= j < subframes(bits).len() && neighbours(subframes(bits)[k], #[trigger] subframes(bits)[j]),
{
    let c = candidates(bits, starts(bits.len() as int));
    let n = c.len() as int;
    lemma_kept_supported(c, n, k);
    let m = choose|m: int| 0 <= m < n && #[trigger] c[m] == kept(c, n)[k] && supported(c, m);
    let j = choose|j: int| 0 <= j < c.len() && neighbours(c[m], #[trigger] c[j]);
    assert(supported(c, j)) by {
        assert(neighbours(c[j], c[m]));
    }
    lemma_kept_complete(c, n, j);
    let i = kept(c, n).index_of(c[j]);
    assert(neighbours(subframes(bits)[k], subframes(bits)[i]));
}

proof fn lemma_inverse_preamble(s: Seq<u8>)
    requires
        is_bits(s),
    ensures
        inverted(inverted(s)) == s,
        is_bits(inverted(s)),
{
    assert(inverted(inverted(s)) =~= s);
}

proof fn lemma_candidate_polarity(bits: Seq<u8>, i: int)
    requires
        is_bits(bits),
        0 <= i,
        i + 300 <= bits.len(),
    ensures
        candidate_at(inverted(bits), i) == candidate_at(bits, i),
{
    let win = bits.subrange(i, i + 300);
    let inv = inverted(bits).subrange(i, i + 300);
    assert(inv =~= inverted(win));
    assert(inv.take(11) =~= inverted(win.take(11)));
    lemma_inverse_preamble(win);
    lemma_inverse_preamble(win.take(11));
    assert(is_bits(PREAMBLE@));
    lemma_inverse_preamble(PREAMBLE@);
    assert(PREAMBLE@[0] == 1);
    assert(inverted(PREAMBLE@)[0] == 0);
}

proof fn lemma_candidates_polarity(bits: Seq<u8>, n: int)
    requires
        is_bits(bits),
        n <= starts(bits.len() as int),
    ensures
        candidates(inverted(bits), n) == candidates(bits, n),
    decreases n,
{
    if n > 0 {
        lemma_candidates_polarity(bits, n - 1);
        lemma_candidate_polarity(bits, n - 1);
    }
}

/// The polarity of the bit stream does not matter.
pub proof fn law_framing_ignores_polarity(bits: Seq<u8>)
    requires
        is_bits(bits),
    ensures
        subframes(inverted(bits)) == subframes(bits),
        candidates(inverted(bits), starts(bits.len() as int)) == candidates(bits, starts(bits.len() as int)),
{
    lemma_candidates_polarity(bits, starts(bits.len() as int));
}

proof fn lemma_candidates_ordered(bits: Seq<u8>, n: int)
    ensures
        forall|k: int| 0 <= k < candidates(bits, n).len() ==> 0 <= (#[trigger] candidates(bits, n)[k]).at < n,
        forall|j: int, k: int|
            0 <= j < k < candidates(bits, n).len() ==> (#[trigger] candidates(bits, n)[j]).at < (
            #[trigger] candidates(bits, n)[k]).at,
    decreases n,
{
    if n > 0 {
        lemma_candidates_ordered(bits, n - 1);
        let prev = candidates(bits, n - 1);
        let all = candidates(bits, n);
        assert forall|k: int| 0 <= k < all.len() implies 0 <= (#[trigger] all[k]).at < n by {
            if k < prev.len() {
                assert(all[k] == prev[k]);
            }
        }
        assert forall|j: int, k: int| 0 <= j < k < all.len() implies (#[trigger] all[j]).at < (#[trigger] all[k]).at by {
            assert(all[j] == prev[j]);
            if k < prev.len() {
                assert(all[k] == prev[k]);
            }
        }
    }
}

/// Candidates come in the order in which they stand in the stream, one at most
/// at each place.
pub proof fn law_candidates_are_ordered(bits: Seq<u8>, j: int, k: int)
    requires
        0 <= j < k < candidates(bits, starts(bits.len() as int)).len(),
    ensures
        candidates(bits, starts(bits.len() as int))[j].at < candidates(bits, starts(bits.len() as int))[k].at,
{
    lemma_candidates_ordered(bits, starts(bits.len() as int));
}

fn block_bits(win: &[u8], wd: usize, j: usize) -> (v: Vec<u8>)
    requires
        win@.len() >= 300,
        is_bits(win@),
        wd < 10,
        j <= 1,
    ensures
        v@ == word_block(win@, wd as int, j as int),
        is_bits(v@),
{
    let mut v: Vec<u8> = Vec::new();
    let mut k: usize = 0;
    while k < 15
        invariant
            win@.len() >= 300,
            is_bits(win@),
            wd < 10,
            j <= 1,
            k <= 15,
            v@ == word_block(win@, wd as int, j as int).take(k as int),
        decreases 15 - k,
    {
        v.push(win[30 * wd + 2 * k + j]);
        assert(v@ =~= word_block(win@, wd as int, j as int).take(k + 1));
        k += 1;
    }
    assert(v@ =~= word_block(win@, wd as int, j as int));
    v
}

fn corrected_data(win: &[u8]) -> (data: [u8; 300])
    requires
        win@.len() >= 300,
        is_bits(win@),
    ensures
        data@ == subframe_data(win@),
        is_bits(data@),
{
    let ghost all = subframe_data(win@);
    let mut data: [u8; 300] = [0u8; 300];
    let mut first: Vec<u8> = Vec::new();
    let mut i: usize = 0;
    while i < 30
        invariant
            win@.len() >= 300,
            i <= 30,
            forall|k: int| 0 <= k < i ==> #[trigger] data@[k] == win@[k],
            forall|k: int| i <= k < 300 ==> #[trigger] data@[k] == 0,
            first@ == (if i < 15 { Seq::<u8>::empty() } else { win@.subrange(15, i as int) }),
        decreases 30 - i,
    {
        data[i] = win[i];
        if i >= 15 {
            first.push(win[i]);
        }
        assert(i >= 15 ==> win@.subrange(15, i + 1) =~= win@.subrange(15, i as int).push(win@[i as int]));
        i += 1;
    }
    assert(is_bits(first@));
    let w1: [u8; 11] = bch_decode(first.as_slice());
    let mut k: usize = 0;
    while k < 11
        invariant
            k <= 11,
            win@.len() >= 300,
            w1@ == bch_data(win@.subrange(15, 30)),
            forall|m: int| 0 <= m < 30 && !(15 <= m < 15 + k) ==> #[trigger] data@[m] == win@[m],
            forall|m: int| 15 <= m < 15 + k ==> #[trigger] data@[m] == w1@[m - 15],
            forall|m: int| 30 <= m < 300 ==> #[trigger] data@[m] == 0,
        decreases 11 - k,
    {
        data[15 + k] = w1[k];
        k += 1;
    }
    assert(forall|m: int| 0 <= m < 30 ==> #[trigger] data@[m] == all[m]);
    let mut wd: usize = 1;
    while wd < 10
        invariant
            win@.len() >= 300,
            is_bits(win@),
            1 <= wd <= 10,
            all == subframe_data(win@),
            forall|m: int| 0 <= m < 30 * wd ==> #[trigger] data@[m] == all[m],
            forall|m: int| 30 * wd <= m < 300 ==> #[trigger] data@[m] == 0,
        decreases 10 - wd,
    {
        let b1: Vec<u8> = block_bits(win, wd, 0);
        let b2: Vec<u8> = block_bits(win, wd, 1);
        let d1: [u8; 11] = bch_decode(b1.as_slice());
        let d2: [u8; 11] = bch_decode(b2.as_slice());
        let mut m: usize = 0;
        while m < 11
            invariant
                m <= 11,
                1 <= wd < 10,
                all == subframe_data(win@),
                d1@ == bch_data(word_block(win@, wd as int, 0)),
                d2@ == bch_data(word_block(win@, wd as int, 1)),
                forall|q: int| 0 <= q < 30 * wd ==> #[trigger] data@[q] == all[q],
                forall|q: int| 30 * wd <= q < 30 * wd + m ==> #[trigger] data@[q] == d1@[q - 30 * wd],
                forall|q: int| 30 * wd + 11 <= q < 30 * wd + 11 + m ==> #[trigger] data@[q] == d2@[q - 30 * wd - 11],
                forall|q: int|
                    30 * wd <= q < 300 && !(30 * wd <= q < 30 * wd + m) && !(30 * wd + 11 <= q < 30 * wd + 11 + m)
                        ==> #[trigger] data@[q] == 0,
            decreases 11 - m,
        {
            data[30 * wd + m] = d1[m];
            data[30 * wd + 11 + m] = d2[m];
            m += 1;
        }
        assert forall|q: int| 0 <= q < 30 * (wd + 1) implies #[trigger] data@[q] == all[q] by {
            if q >= 30 * wd {
                assert(q / 30 == wd);
                assert(q % 30 == q - 30 * wd);
            }
        }
        wd += 1;
    }
    assert(data@ =~= all);
    proof {
        lemma_data_bits(win@);
    }
    data
}

proof fn lemma_word_data_bits(block: Seq<u8>)
    requires
        block.len() == 15,
        is_bits(block),
    ensures
        is_bits(bch_data(block)),
        bch_data(block).len() == 11,
{
    assert(block.take(15) =~= block);
    law_every_block_is_near_a_clean_one(block);
}

proof fn lemma_data_bits(win: Seq<u8>)
    requires
        win.len() >= 300,
        is_bits(win),
    ensures
        is_bits(subframe_data(win)),
{
    let all = subframe_data(win);
    assert forall|i: int| 0 <= i < 300 implies #[trigger] all[i] <= 1 by {
        lemma_word_data_bits(win.subrange(15, 30));
        if i >= 30 {
            lemma_word_data_bits(word_block(win, i / 30, 0));
            lemma_word_data_bits(word_block(win, i / 30, 1));
        }
    }
}

/// Decodes 300 bits that start with the preamble.
pub fn subframe_decode(win: &[u8], bit_index: usize) -> (r: Option<D1Subframe>)
    requires
        win@.len() >= 300,
        is_bits(win@),
    ensures
        r is Some <==> subframe_of(win@, bit_index as int) is Some,
        r matches Some(s) ==> s@ == subframe_of(win@, bit_index as int)->0,
{
    proof {
        lemma2_to64();
    }
    let data: [u8; 300] = corrected_data(win);
    let frid: u64 = bu(data.as_slice(), 15, 3);
    if frid < 1 || frid > 5 {
        return None;
    }
    let sow: u64 = u2(data.as_slice(), 18, 8, 30, 12);
    if sow >= 604800 || sow % 6 != 0 {
        return None;
    }
    Some(D1Subframe { frid: frid as u8, sow_bdt: sow as u32, data, bit_index })
}

fn preamble_at(bits: &[u8], i: usize, invert: bool) -> (r: bool)
    requires
        i + 11 <= bits@.len(),
        is_bits(bits@),
    ensures
        r == (bits@.subrange(i as int, i + 11) == (if invert { inverted(PREAMBLE@) } else { PREAMBLE@ })),
{
    let len: usize = bits.len();
    let ghost want = if invert { inverted(PREAMBLE@) } else { PREAMBLE@ };
    let mut k: usize = 0;
    while k < 11
        invariant
            len == bits@.len(),
            i + 11 <= len,
            is_bits(bits@),
            want == (if invert { inverted(PREAMBLE@) } else { PREAMBLE@ }),
            k <= 11,
            forall|j: int| 0 <= j < k ==> bits@[i + j] == #[trigger] want[j],
        decreases 11 - k,
    {
        let p: u8 = PREAMBLE[k];
        assert(PREAMBLE@[k as int] <= 1);
        let w: u8 = if invert { 1 - p } else { p };
        if bits[i + k] != w {
            assert(bits@.subrange(i as int, i + 11)[k as int] != want[k as int]);
            return false;
        }
        k += 1;
    }
    assert(bits@.subrange(i as int, i + 11) =~= want);
    true
}

fn window(bits: &[u8], i: usize, invert: bool) -> (v: Vec<u8>)
    requires
        i + 300 <= bits@.len(),
        is_bits(bits@),
    ensures
        v@ == (if invert {
            inverted(bits@.subrange(i as int, i + 300))
        } else {
            bits@.subrange(i as int, i + 300)
        }),
        is_bits(v@),
{
    let len: usize = bits.len();
    let ghost want = if invert {
        inverted(bits@.subrange(i as int, i + 300))
    } else {
        bits@.subrange(i as int, i + 300)
    };
    let mut v: Vec<u8> = Vec::new();
    let mut k: usize = 0;
    while k < 300
        invariant
            len == bits@.len(),
            i + 300 <= len,
            is_bits(bits@),
            want.len() == 300,
            forall|j: int|
                0 <= j < 300 ==> #[trigger] want[j] == (if invert { (1 - bits@[i + j]) as u8 } else { bits@[i + j] }),
            k <= 300,
            v@ == want.take(k as int),
        decreases 300 - k,
    {
        let b: u8 = bits[i + k];
        v.push(if invert { 1 - b } else { b });
        assert(v@ =~= want.take(k + 1));
        k += 1;
    }
    assert(v@ =~= want);
    assert forall|j: int| 0 <= j < v@.len() implies #[trigger] v@[j] <= 1 by {
        assert(bits@[i + j] <= 1);
    }
    v
}

/// Every place of a bit stream that decodes as a subframe, in either polarity.
pub fn find_candidates(bits: &[u8]) -> (cand: Vec<D1Subframe>)
    requires
        is_bits(bits@),
    ensures
        views(cand@) == candidates(bits@, starts(bits@.len() as int)),
{
    let n: usize = bits.len();
    let mut cand: Vec<D1Subframe> = Vec::new();
    let mut i: usize = 0;
    assert(views(cand@) =~= candidates(bits@, 0));
    while n >= 300 && i <= n - 300
        invariant
            n == bits@.len(),
            is_bits(bits@),
            i <= starts(n as int),
            views(cand@) == candidates(bits@, i as int),
        decreases starts(n as int) - i,
    {
        let ghost win = bits@.subrange(i as int, i + 300);
        assert(win.take(11) =~= bits@.subrange(i as int, i + 11));
        assert(inverted(PREAMBLE@)[0] == 0 && PREAMBLE@[0] == 1);
        let norm: bool = preamble_at(bits, i, false);
        let inv: bool = preamble_at(bits, i, true);
        if norm || inv {
            let w: Vec<u8> = window(bits, i, inv);
            let ghost before = cand@;
            match subframe_decode(w.as_slice(), i) {
                Some(sf) => {
                    cand.push(sf);
                    assert(views(cand@) =~= views(before).push(sf@));
                },
                None => {},
            }
        }
        i += 1;
    }
    cand
}

fn follows_in(a: &D1Subframe, b: &D1Subframe) -> (r: bool)
    requires
        a.sow_bdt <= 604800,
    ensures
        r == follows(a@, b@),
{
    b.bit_index >= 300 && b.bit_index - 300 == a.bit_index && b.sow_bdt == (a.sow_bdt + 6) % WEEK_S && b.frid
        == a.frid % 5 + 1
}

/// The subframes of a bit stream: the candidates with a neighbour 300 bits away
/// whose number and time agree.
pub fn find_subframes(bits: &[u8]) -> (out: Vec<D1Subframe>)
    requires
        is_bits(bits@),
    ensures
        views(out@) == subframes(bits@),
{
    let cand: Vec<D1Subframe> = find_candidates(bits);
    let ghost c = candidates(bits@, starts(bits@.len() as int));
    proof {
        lemma_candidate_times(bits@, starts(bits@.len() as int));
        assert(views(cand@) == c);
        assert forall|i: int| 0 <= i < cand@.len() implies (#[trigger] cand@[i])@ == c[i] && cand@[i].sow_bdt
            < 604800 by {
            assert(views(cand@)[i] == c[i]);
        }
    }
    let mut out: Vec<D1Subframe> = Vec::new();
    let mut k: usize = 0;
    assert(views(out@) =~= kept(c, 0));
    while k < cand.len()
        invariant
            k <= cand@.len(),
            cand@.len() == c.len(),
            forall|i: int| 0 <= i < cand@.len() ==> (#[trigger] cand@[i])@ == c[i] && cand@[i].sow_bdt < 604800,
            views(out@) == kept(c, k as int),
        decreases cand@.len() - k,
    {
        let mut found: bool = false;
        let mut j: usize = 0;
        while j < cand.len()
            invariant
                k < cand@.len(),
                j <= cand@.len(),
                cand@.len() == c.len(),
                forall|i: int| 0 <= i < cand@.len() ==> (#[trigger] cand@[i])@ == c[i] && cand@[i].sow_bdt < 604800,
                found == (exists|m: int| 0 <= m < j && neighbours(c[k as int], #[trigger] c[m])),
            decreases cand@.len() - j,
        {
            if follows_in(&cand[k], &cand[j]) || follows_in(&cand[j], &cand[k]) {
                found = true;
                assert(neighbours(c[k as int], c[j as int]));
            }
            j += 1;
        }
        let ghost before = out@;
        if found {
            out.push(cand[k]);
            assert(views(out@) =~= views(before).push(c[k as int]));
        }
        k += 1;
    }
    out
}

proof fn lemma_candidate_times(bits: Seq<u8>, n: int)
    ensures
        forall|k: int|
            0 <= k < candidates(bits, n).len() ==> 0 <= (#[trigger] candidates(bits, n)[k]).sow < 604800,
    decreases n,
{
    if n > 0 {
        lemma_candidate_times(bits, n - 1);
        let prev = candidates(bits, n - 1);
        let all = candidates(bits, n);
        assert forall|k: int| 0 <= k < all.len() implies 0 <= (#[trigger] all[k]).sow < 604800 by {
            if k < prev.len() {
                assert(all[k] == prev[k]);
            }
        }
    }
}

// ------------------------------------------------------------- ephemeris
/// An ephemeris in the units of the message. Angles are in units of 2^-31
/// semicircles and rates of 2^-43; harmonics of 2^-31 radians or 2^-6 metres;
/// the eccentricity of 2^-33 and the root of the semi-major axis of 2^-19; the
/// clock terms of 2^-33, 2^-50 and 2^-66; the group delay of a tenth of a
/// nanosecond. Times are seconds of week in GPS time.
#[derive(Debug, Clone, Copy, PartialEq, Eq)]
pub struct D1Ephemeris {
    pub health: u8,
    pub week: u16,
    pub toc: u32,
    pub tgd: i64,
    pub af0: i64,
    pub af1: i64,
    pub af2: i64,
    pub delta_n: i64,
    pub cuc: i64,
    pub m0: i64,
    pub e: u64,
    pub cus: i64,
    pub crc: i64,
    pub crs: i64,
    pub sqrt_a: u64,
    pub toe: u32,
    pub i0: i64,
    pub cic: i64,
    pub omega_dot: i64,
    pub cis: i64,
    pub idot: i64,
    pub omega0: i64,
    pub omega: i64,
}

pub open spec fn us(d: Seq<u8>, p1: int, l1: int, p2: int, l2: int) -> u64 {
    bits_value(split_bits(d, p1, l1, p2, l2)) as u64
}

pub open spec fn ss(d: Seq<u8>, p1: int, l1: int, p2: int, l2: int) -> i64 {
    signed_value(split_bits(d, p1, l1, p2, l2)) as i64
}

/// Seconds of week in GPS time of a field in units of eight seconds of BDT.
pub open spec fn eights(v: int) -> u32 {
    ((8 * v + 14) % 604800) as u32
}

/// Bits of the reference time, which is split over subframes 2 and 3.
pub open spec fn toe_bits(d2: Seq<u8>, d3: Seq<u8>) -> Seq<u8> {
    d2.subrange(290, 292) + split_bits(d3, 42, 10, 60, 5)
}

/// The ephemeris that the data of subframes 1, 2 and 3 hold.
pub open spec fn ephemeris_fields(d1: Seq<u8>, d2: Seq<u8>, d3: Seq<u8>) -> D1Ephemeris {
    D1Ephemeris {
        health: unsigned_at(d1, 42, 1) as u8,
        week: unsigned_at(d1, 60, 13) as u16,
        toc: eights(us(d1, 73, 9, 90, 8) as int),
        tgd: signed_at(d1, 98, 10) as i64,
        af2: signed_at(d1, 214, 11) as i64,
        af0: ss(d1, 225, 7, 240, 17),
        af1: ss(d1, 257, 5, 270, 17),
        delta_n: ss(d2, 42, 10, 60, 6),
        cuc: ss(d2, 66, 16, 90, 2),
        m0: ss(d2, 92, 20, 120, 12),
        e: us(d2, 132, 10, 150, 22),
        cus: signed_at(d2, 180, 18) as i64,
        crc: ss(d2, 198, 4, 210, 14),
        crs: ss(d2, 224, 8, 240, 10),
        sqrt_a: us(d2, 250, 12, 270, 20),
        toe: eights(bits_value(toe_bits(d2, d3)) as int),
        i0: ss(d3, 65, 17, 90, 15),
        cic: ss(d3, 105, 7, 120, 11),
        omega_dot: ss(d3, 131, 11, 150, 13),
        cis: ss(d3, 163, 9, 180, 9),
        idot: ss(d3, 189, 13, 210, 1),
        omega0: ss(d3, 211, 21, 240, 11),
        omega: ss(d3, 251, 11, 270, 21),
    }
}

/// Whether the orbit is that of a medium or an inclined geosynchronous
/// satellite: a root of the semi-major axis from 5100 up to 5450 or from 6300
/// up to 6600, and an eccentricity below 0.05.
pub open spec fn orbit_sane(e: D1Ephemeris) -> bool {
    (5100 * 524288 <= e.sqrt_a < 5450 * 524288 || 6300 * 524288 <= e.sqrt_a < 6600 * 524288) && 20 * e.e
        <= 0x2_0000_0000
}

/// Index of the first subframe from `i` on with the given number, place and time.
pub open spec fn first_sub(subs: Seq<SubframeView>, frid: int, at: int, sow: int, i: int) -> Option<int>
    decreases subs.len() - i,
{
    if i >= subs.len() {
        None
    } else if subs[i].frid == frid && subs[i].at == at && subs[i].sow == sow {
        Some(i)
    } else {
        first_sub(subs, frid, at, sow, i + 1)
    }
}

/// The ephemeris that starts with subframe `a`, if it is a first subframe, the
/// next two follow it and the orbit is sane.
pub open spec fn ephemeris_from(subs: Seq<SubframeView>, a: int) -> Option<D1Ephemeris> {
    let s = subs[a];
    match (
        first_sub(subs, 2, s.at + 300, (s.sow + 6) % 604800, 0),
        first_sub(subs, 3, s.at + 600, (s.sow + 12) % 604800, 0),
    ) {
        (Some(b), Some(c)) if s.frid == 1 && orbit_sane(ephemeris_fields(s.data, subs[b].data, subs[c].data)) => Some(
            ephemeris_fields(s.data, subs[b].data, subs[c].data),
        ),
        _ => None,
    }
}

/// The first ephemeris of a list of subframes, from index `a` on.
pub open spec fn first_ephemeris(subs: Seq<SubframeView>, a: int) -> Option<D1Ephemeris>
    decreases subs.len() - a,
{
    if a >= subs.len() {
        None
    } else if ephemeris_from(subs, a) is Some {
        ephemeris_from(subs, a)
    } else {
        first_ephemeris(subs, a + 1)
    }
}

fn find_sub(subs: &[D1Subframe], frid: u8, at: usize, sow: u32) -> (r: Option<usize>)
    ensures
        r is Some <==> first_sub(views(subs@), frid as int, at as int, sow as int, 0) is Some,
        r matches Some(i) ==> i == first_sub(views(subs@), frid as int, at as int, sow as int, 0)->0 && i
            < subs@.len(),
{
    let ghost v = views(subs@);
    let mut i: usize = 0;
    while i < subs.len()
        invariant
            i <= subs@.len(),
            v == views(subs@),
            first_sub(v, frid as int, at as int, sow as int, 0) == first_sub(
                v,
                frid as int,
                at as int,
                sow as int,
                i as int,
            ),
        decreases subs@.len() - i,
    {
        assert(v[i as int] == subs@[i as int]@);
        if subs[i].frid == frid && subs[i].bit_index == at && subs[i].sow_bdt == sow {
            return Some(i);
        }
        i += 1;
    }
    None
}

fn toe_field(d2: &[u8], d3: &[u8]) -> (v: u64)
    requires
        d2@.len() == 300,
        d3@.len() == 300,
    ensures
        v == bits_value(toe_bits(d2@, d3@)),
        v < 131072,
{
    let hi: Vec<u8> = joined(d2, 290, 2, 290, 0);
    let lo: Vec<u8> = joined(d3, 42, 10, 60, 5);
    let mut all: Vec<u8> = Vec::new();
    let ghost want = toe_bits(d2@, d3@);
    let mut i: usize = 0;
    while i < 17
        invariant
            i <= 17,
            hi@ == split_bits(d2@, 290, 2, 290, 0),
            lo@ == split_bits(d3@, 42, 10, 60, 5),
            d2@.len() == 300,
            d3@.len() == 300,
            want == toe_bits(d2@, d3@),
            all@ == want.take(i as int),
        decreases 17 - i,
    {
        all.push(if i < 2 { hi[i] } else { lo[i - 2] });
        assert(all@ =~= want.take(i + 1));
        i += 1;
    }
    assert(all@ =~= want);
    assert(all@.subrange(0, 17) =~= all@);
    proof {
        lemma2_to64();
    }
    ubits(all.as_slice(), 0, 17)
}

fn read_fields(d1: &[u8], d2: &[u8], d3: &[u8]) -> (e: D1Ephemeris)
    requires
        d1@.len() == 300,
        d2@.len() == 300,
        d3@.len() == 300,
    ensures
        e == ephemeris_fields(d1@, d2@, d3@),
{
    proof {
        lemma2_to64();
    }
    let toc8: u64 = u2(d1, 73, 9, 90, 8);
    let toe8: u64 = toe_field(d2, d3);
    D1Ephemeris {
        health: bu(d1, 42, 1) as u8,
        week: bu(d1, 60, 13) as u16,
        toc: sow_bdt_to_gpst(8 * (toc8 as u32)),
        tgd: bi(d1, 98, 10),
        af2: bi(d1, 214, 11),
        af0: s2(d1, 225, 7, 240, 17),
        af1: s2(d1, 257, 5, 270, 17),
        delta_n: s2(d2, 42, 10, 60, 6),
        cuc: s2(d2, 66, 16, 90, 2),
        m0: s2(d2, 92, 20, 120, 12),
        e: u2(d2, 132, 10, 150, 22),
        cus: bi(d2, 180, 18),
        crc: s2(d2, 198, 4, 210, 14),
        crs: s2(d2, 224, 8, 240, 10),
        sqrt_a: u2(d2, 250, 12, 270, 20),
        toe: sow_bdt_to_gpst(8 * (toe8 as u32)),
        i0: s2(d3, 65, 17, 90, 15),
        cic: s2(d3, 105, 7, 120, 11),
        omega_dot: s2(d3, 131, 11, 150, 13),
        cis: s2(d3, 163, 9, 180, 9),
        idot: s2(d3, 189, 13, 210, 1),
        omega0: s2(d3, 211, 21, 240, 11),
        omega: s2(d3, 251, 11, 270, 21),
    }
}

/// Where the fields of subframe 1 stand among its 300 bits, of which the last eight of
/// every thirty are empty.
pub proof fn law_places_in_subframe1(
    d1: Seq<u8>,
    d2: Seq<u8>,
    d3: Seq<u8>,
    gap0: Seq<u8>,
    health: Seq<u8>,
    gap1: Seq<u8>,
    week: Seq<u8>,
    toc_high: Seq<u8>,
    gap2: Seq<u8>,
    toc_low: Seq<u8>,
    tgd: Seq<u8>,
    gap3: Seq<u8>,
    af2: Seq<u8>,
    af0_high: Seq<u8>,
    gap4: Seq<u8>,
    af0_low: Seq<u8>,
    af1_high: Seq<u8>,
    gap5: Seq<u8>,
    af1_low: Seq<u8>,
    gap6: Seq<u8>,
)
    requires
        gap0.len() == 42,
        health.len() == 1,
        gap1.len() == 17,
        week.len() == 13,
        toc_high.len() == 9,
        gap2.len() == 8,
        toc_low.len() == 8,
        tgd.len() == 10,
        gap3.len() == 106,
        af2.len() == 11,
        af0_high.len() == 7,
        gap4.len() == 8,
        af0_low.len() == 17,
        af1_high.len() == 5,
        gap5.len() == 8,
        af1_low.len() == 17,
        gap6.len() == 13,
        d1 == gap0 + health + gap1 + week + toc_high + gap2 + toc_low + tgd + gap3 + af2 + af0_high + gap4
            + af0_low + af1_high + gap5 + af1_low + gap6,
    ensures
        ({
            let e = ephemeris_fields(d1, d2, d3);
            &&& e.health == bits_value(health)
            &&& e.week == bits_value(week)
            &&& e.toc == (8 * bits_value(toc_high + toc_low) + 14) % 604800
            &&& e.tgd == signed_value(tgd)
            &&& e.af2 == signed_value(af2)
            &&& e.af0 == signed_value(af0_high + af0_low)
            &&& e.af1 == signed_value(af1_high + af1_low)
        }),
{
    lemma2_to64();
    assert(d1.subrange(42, 43) =~= health);
    lemma_value_bound(health);
    assert(d1.subrange(60, 73) =~= week);
    lemma_value_bound(week);
    assert(d1.subrange(73, 82) =~= toc_high);
    lemma_value_bound(toc_high + toc_low);
    assert(d1.subrange(90, 98) =~= toc_low);
    assert(d1.subrange(98, 108) =~= tgd);
    lemma_signed_bound(tgd);
    assert(d1.subrange(214, 225) =~= af2);
    lemma_signed_bound(af2);
    assert(d1.subrange(225, 232) =~= af0_high);
    lemma_signed_bound(af0_high + af0_low);
    assert(d1.subrange(240, 257) =~= af0_low);
    assert(d1.subrange(257, 262) =~= af1_high);
    lemma_signed_bound(af1_high + af1_low);
    assert(d1.subrange(270, 287) =~= af1_low);
}

/// Where the fields of subframe 2 stand among its 300 bits, of which the last eight of
/// every thirty are empty.
pub proof fn law_places_in_subframe2(
    d1: Seq<u8>,
    d2: Seq<u8>,
    d3: Seq<u8>,
    gap0: Seq<u8>,
    delta_n_high: Seq<u8>,
    gap1: Seq<u8>,
    delta_n_low: Seq<u8>,
    cuc_high: Seq<u8>,
    gap2: Seq<u8>,
    cuc_low: Seq<u8>,
    m0_high: Seq<u8>,
    gap3: Seq<u8>,
    m0_low: Seq<u8>,
    e_high: Seq<u8>,
    gap4: Seq<u8>,
    e_low: Seq<u8>,
    gap5: Seq<u8>,
    cus: Seq<u8>,
    crc_high: Seq<u8>,
    gap6: Seq<u8>,
    crc_low: Seq<u8>,
    crs_high: Seq<u8>,
    gap7: Seq<u8>,
    crs_low: Seq<u8>,
    sqrt_a_high: Seq<u8>,
    gap8: Seq<u8>,
    sqrt_a_low: Seq<u8>,
    toe_high: Seq<u8>,
    gap9: Seq<u8>,
)
    requires
        gap0.len() == 42,
        delta_n_high.len() == 10,
        gap1.len() == 8,
        delta_n_low.len() == 6,
        cuc_high.len() == 16,
        gap2.len() == 8,
        cuc_low.len() == 2,
        m0_high.len() == 20,
        gap3.len() == 8,
        m0_low.len() == 12,
        e_high.len() == 10,
        gap4.len() == 8,
        e_low.len() == 22,
        gap5.len() == 8,
        cus.len() == 18,
        crc_high.len() == 4,
        gap6.len() == 8,
        crc_low.len() == 14,
        crs_high.len() == 8,
        gap7.len() == 8,
        crs_low.len() == 10,
        sqrt_a_high.len() == 12,
        gap8.len() == 8,
        sqrt_a_low.len() == 20,
        toe_high.len() == 2,
        gap9.len() == 8,
        d2 == gap0 + delta_n_high + gap1 + delta_n_low + cuc_high + gap2 + cuc_low + m0_high + gap3 + m0_low
            + e_high + gap4 + e_low + gap5 + cus + crc_high + gap6 + crc_low + crs_high + gap7 + crs_low
            + sqrt_a_high + gap8 + sqrt_a_low + toe_high + gap9,
    ensures
        ({
            let e = ephemeris_fields(d1, d2, d3);
            &&& e.delta_n == signed_value(delta_n_high + delta_n_low)
            &&& e.cuc == signed_value(cuc_high + cuc_low)
            &&& e.m0 == signed_value(m0_high + m0_low)
            &&& e.e == bits_value(e_high + e_low)
            &&& e.cus == signed_value(cus)
            &&& e.crc == signed_value(crc_high + crc_low)
            &&& e.crs == signed_value(crs_high + crs_low)
            &&& e.sqrt_a == bits_value(sqrt_a_high + sqrt_a_low)
        }),
{
    lemma2_to64();
    assert(d2.subrange(42, 52) =~= delta_n_high);
    lemma_signed_bound(delta_n_high + delta_n_low);
    assert(d2.subrange(60, 66) =~= delta_n_low);
    assert(d2.subrange(66, 82) =~= cuc_high);
    lemma_signed_bound(cuc_high + cuc_low);
    assert(d2.subrange(90, 92) =~= cuc_low);
    assert(d2.subrange(92, 112) =~= m0_high);
    lemma_signed_bound(m0_high + m0_low);
    assert(d2.subrange(120, 132) =~= m0_low);
    assert(d2.subrange(132, 142) =~= e_high);
    lemma_value_bound(e_high + e_low);
    assert(d2.subrange(150, 172) =~= e_low);
    assert(d2.subrange(180, 198) =~= cus);
    lemma_signed_bound(cus);
    assert(d2.subrange(198, 202) =~= crc_high);
    lemma_signed_bound(crc_high + crc_low);
    assert(d2.subrange(210, 224) =~= crc_low);
    assert(d2.subrange(224, 232) =~= crs_high);
    lemma_signed_bound(crs_high + crs_low);
    assert(d2.subrange(240, 250) =~= crs_low);
    assert(d2.subrange(250, 262) =~= sqrt_a_high);
    lemma_value_bound(sqrt_a_high + sqrt_a_low);
    assert(d2.subrange(270, 290) =~= sqrt_a_low);
    assert(d2.subrange(290, 292) =~= toe_high);
}

/// Where the fields of subframe 3 stand among its 300 bits, of which the last eight of
/// every thirty are empty.
pub proof fn law_places_in_subframe3(
    d1: Seq<u8>,
    d2: Seq<u8>,
    d3: Seq<u8>,
    gap0: Seq<u8>,
    toe_mid: Seq<u8>,
    gap1: Seq<u8>,
    toe_low: Seq<u8>,
    i0_high: Seq<u8>,
    gap2: Seq<u8>,
    i0_low: Seq<u8>,
    cic_high: Seq<u8>,
    gap3: Seq<u8>,
    cic_low: Seq<u8>,
    omega_dot_high: Seq<u8>,
    gap4: Seq<u8>,
    omega_dot_low: Seq<u8>,
    cis_high: Seq<u8>,
    gap5: Seq<u8>,
    cis_low: Seq<u8>,
    idot_high: Seq<u8>,
    gap6: Seq<u8>,
    idot_low: Seq<u8>,
    omega0_high: Seq<u8>,
    gap7: Seq<u8>,
    omega0_low: Seq<u8>,
    omega_high: Seq<u8>,
    gap8: Seq<u8>,
    omega_low: Seq<u8>,
    gap9: Seq<u8>,
)
    requires
        gap0.len() == 42,
        toe_mid.len() == 10,
        gap1.len() == 8,
        toe_low.len() == 5,
        i0_high.len() == 17,
        gap2.len() == 8,
        i0_low.len() == 15,
        cic_high.len() == 7,
        gap3.len() == 8,
        cic_low.len() == 11,
        omega_dot_high.len() == 11,
        gap4.len() == 8,
        omega_dot_low.len() == 13,
        cis_high.len() == 9,
        gap5.len() == 8,
        cis_low.len() == 9,
        idot_high.len() == 13,
        gap6.len() == 8,
        idot_low.len() == 1,
        omega0_high.len() == 21,
        gap7.len() == 8,
        omega0_low.len() == 11,
        omega_high.len() == 11,
        gap8.len() == 8,
        omega_low.len() == 21,
        gap9.len() == 9,
        d3 == gap0 + toe_mid + gap1 + toe_low + i0_high + gap2 + i0_low + cic_high + gap3 + cic_low
            + omega_dot_high + gap4 + omega_dot_low + cis_high + gap5 + cis_low + idot_high + gap6 + idot_low
            + omega0_high + gap7 + omega0_low + omega_high + gap8 + omega_low + gap9,
    ensures
        ({
            let e = ephemeris_fields(d1, d2, d3);
            &&& e.i0 == signed_value(i0_high + i0_low)
            &&& e.cic == signed_value(cic_high + cic_low)
            &&& e.omega_dot == signed_value(omega_dot_high + omega_dot_low)
            &&& e.cis == signed_value(cis_high + cis_low)
            &&& e.idot == signed_value(idot_high + idot_low)
            &&& e.omega0 == signed_value(omega0_high + omega0_low)
            &&& e.omega == signed_value(omega_high + omega_low)
            &&& e.toe == (8 * bits_value(d2.subrange(290, 292) + toe_mid + toe_low) + 14) % 604800
        }),
{
    lemma2_to64();
    assert(d3.subrange(42, 52) =~= toe_mid);
    assert(d3.subrange(60, 65) =~= toe_low);
    assert(d3.subrange(65, 82) =~= i0_high);
    lemma_signed_bound(i0_high + i0_low);
    assert(d3.subrange(90, 105) =~= i0_low);
    assert(d3.subrange(105, 112) =~= cic_high);
    lemma_signed_bound(cic_high + cic_low);
    assert(d3.subrange(120, 131) =~= cic_low);
    assert(d3.subrange(131, 142) =~= omega_dot_high);
    lemma_signed_bound(omega_dot_high + omega_dot_low);
    assert(d3.subrange(150, 163) =~= omega_dot_low);
    assert(d3.subrange(163, 172) =~= cis_high);
    lemma_signed_bound(cis_high + cis_low);
    assert(d3.subrange(180, 189) =~= cis_low);
    assert(d3.subrange(189, 202) =~= idot_high);
    lemma_signed_bound(idot_high + idot_low);
    assert(d3.subrange(210, 211) =~= idot_low);
    assert(d3.subrange(211, 232) =~= omega0_high);
    lemma_signed_bound(omega0_high + omega0_low);
    assert(d3.subrange(240, 251) =~= omega0_low);
    assert(d3.subrange(251, 262) =~= omega_high);
    lemma_signed_bound(omega_high + omega_low);
    assert(d3.subrange(270, 291) =~= omega_low);
    assert(toe_bits(d2, d3) =~= d2.subrange(290, 292) + toe_mid + toe_low);
}

/// The four checks of a clean block: the sums over GF(2) of its bits with these numbers
/// are one, zero, zero and zero.
pub proof fn law_clean_blocks_satisfy_four_checks(block: Seq<u8>)
    requires
        block.len() == 15,
        is_bits(block),
    ensures
        clean(block) <==> {
            &&& (block[0] + block[1] + block[2] + block[4] + block[6] + block[7] + block[10] + block[14]) % 2 == 1
            &&& (block[2] + block[3] + block[4] + block[5] + block[7] + block[9] + block[10] + block[13]) % 2 == 0
            &&& (block[1] + block[2] + block[3] + block[4] + block[6] + block[8] + block[9] + block[12]) % 2 == 0
            &&& (block[0] + block[1] + block[2] + block[3] + block[5] + block[7] + block[8] + block[11]) % 2 == 0
        },
{
    assert forall|i: int| 0 <= i < 15 implies #[trigger] block[i] <= 1 by {}
    reveal_with_fuel(bch_register, 16);
    lemma_fifteen_steps(
        block[0],
        block[1],
        block[2],
        block[3],
        block[4],
        block[5],
        block[6],
        block[7],
        block[8],
        block[9],
        block[10],
        block[11],
        block[12],
        block[13],
        block[14],
    );
    lemma_sum_of_eight(block[0], block[1], block[2], block[4], block[6], block[7], block[10], block[14]);
    lemma_sum_of_eight(block[2], block[3], block[4], block[5], block[7], block[9], block[10], block[13]);
    lemma_sum_of_eight(block[1], block[2], block[3], block[4], block[6], block[8], block[9], block[12]);
    lemma_sum_of_eight(block[0], block[1], block[2], block[3], block[5], block[7], block[8], block[11]);
}

proof fn lemma_fifteen_steps(
    b0: u8,
    b1: u8,
    b2: u8,
    b3: u8,
    b4: u8,
    b5: u8,
    b6: u8,
    b7: u8,
    b8: u8,
    b9: u8,
    b10: u8,
    b11: u8,
    b12: u8,
    b13: u8,
    b14: u8,
)
    by (bit_vector)
    requires
        b0 <= 1,
        b1 <= 1,
        b2 <= 1,
        b3 <= 1,
        b4 <= 1,
        b5 <= 1,
        b6 <= 1,
        b7 <= 1,
        b8 <= 1,
        b9 <= 1,
        b10 <= 1,
        b11 <= 1,
        b12 <= 1,
        b13 <= 1,
        b14 <= 1,
    ensures
        bch_step(bch_step(bch_step(bch_step(bch_step(bch_step(bch_step(bch_step(bch_step(bch_step(bch_step(bch_step(bch_step(bch_step(bch_step(0u8, b0), b1), b2), b3), b4), b5), b6), b7), b8), b9), b10), b11), b12), b13), b14) == 8 <==> (b0 ^ b1 ^ b2 ^ b4 ^ b6 ^ b7 ^ b10 ^ b14 == 1u8) && (b2 ^ b3 ^ b4 ^ b5 ^ b7 ^ b9 ^ b10 ^ b13 == 0u8) && (b1 ^ b2 ^ b3 ^ b4 ^ b6 ^ b8 ^ b9 ^ b12 == 0u8) && (b0 ^ b1 ^ b2 ^ b3 ^ b5 ^ b7 ^ b8 ^ b11 == 0u8),
{
}

proof fn lemma_sum_of_eight(a: u8, b: u8, c: u8, d: u8, e: u8, f: u8, g: u8, h: u8)
    by (bit_vector)
    requires
        a <= 1,
        b <= 1,
        c <= 1,
        d <= 1,
        e <= 1,
        f <= 1,
        g <= 1,
        h <= 1,
    ensures
        (a + b + c + d + e + f + g + h) % 2 == a ^ b ^ c ^ d ^ e ^ f ^ g ^ h,
{
}

/// In a window whose blocks are clean the data bits stand where they were sent: the
/// first word as it is, and of each later word the eleven data bits of the block at
/// its even places, then those of the block at its odd ones. The number of the
/// subframe is in the bits from the 16th on, the second of the week in the eight bits
/// behind it and the first twelve of the next word.
pub proof fn law_clean_windows_read_back(win: Seq<u8>, even: Seq<Seq<u8>>, odd: Seq<Seq<u8>>, at: int)
    requires
        win.len() == 300,
        is_bits(win),
        clean(win.subrange(15, 30)),
        forall|wd: int| 1 <= wd < 10 ==> (#[trigger] even[wd]).len() == 15 && clean(even[wd]),
        forall|wd: int| 1 <= wd < 10 ==> (#[trigger] odd[wd]).len() == 15 && clean(odd[wd]),
        forall|wd: int, k: int| 1 <= wd < 10 && 0 <= k < 15 ==> #[trigger] even[wd][k] == win[30 * wd + 2 * k],
        forall|wd: int, k: int| 1 <= wd < 10 && 0 <= k < 15 ==> #[trigger] odd[wd][k] == win[30 * wd + 2 * k + 1],
    ensures
        ({
            let d = subframe_data(win);
            let id = bits_value(win.subrange(15, 18));
            let sow = bits_value(win.subrange(18, 26) + even[1].take(11) + odd[1].take(1));
            &&& d.len() == 300
            &&& d.take(26) == win.take(26)
            &&& forall|wd: int| 1 <= wd < 10 ==> d.subrange(30 * wd, 30 * wd + 22) == (#[trigger] even[wd]).take(11)
                + odd[wd].take(11)
            &&& subframe_of(win, at) is Some <==> 1 <= id <= 5 && sow < 604800 && sow % 6 == 0
            &&& subframe_of(win, at) matches Some(s) ==> s.frid == id && s.sow == sow && s.data == d && s.at == at
        }),
{
    let d = subframe_data(win);
    let h = win.subrange(15, 30);
    assert(h.take(15) =~= h);
    assert forall|i: int| 0 <= i < 26 implies d[i] == win[i] by {
        if i >= 15 {
            assert(bch_data(h)[i - 15] == h[i - 15]);
        }
    }
    assert(d.take(26) =~= win.take(26));
    assert forall|wd: int| 1 <= wd < 10 implies d.subrange(30 * wd, 30 * wd + 22) == (#[trigger] even[wd]).take(11)
        + odd[wd].take(11) by {
        assert(word_block(win, wd, 0) =~= even[wd]) by {
            assert forall|k: int| 0 <= k < 15 implies word_block(win, wd, 0)[k] == even[wd][k] by {}
        }
        assert(word_block(win, wd, 1) =~= odd[wd]) by {
            assert forall|k: int| 0 <= k < 15 implies word_block(win, wd, 1)[k] == odd[wd][k] by {}
        }
        assert(even[wd].take(15) =~= even[wd]);
        assert(odd[wd].take(15) =~= odd[wd]);
        assert forall|k: int| 0 <= k < 22 implies d[30 * wd + k] == (even[wd].take(11) + odd[wd].take(11))[k] by {
            assert((30 * wd + k) / 30 == wd && (30 * wd + k) % 30 == k);
        }
        assert(d.subrange(30 * wd, 30 * wd + 22) =~= even[wd].take(11) + odd[wd].take(11));
    }
    assert(d.subrange(15, 18) =~= win.subrange(15, 18));
    assert(split_bits(d, 18, 8, 30, 12) =~= win.subrange(18, 26) + even[1].take(11) + odd[1].take(1)) by {
        let w = d.subrange(30, 52);
        assert(w == even[1].take(11) + odd[1].take(11));
        assert forall|k: int| 0 <= k < 12 implies d[30 + k] == w[k] by {}
    }
}

/// A subframe follows another if it starts 300 bits after it, is six seconds later in
/// the week, which has 604800, and has the next number of the five.
pub proof fn law_subframes_follow_every_six_seconds(a: SubframeView, b: SubframeView)
    requires
        1 <= a.frid <= 5,
        1 <= b.frid <= 5,
        0 <= a.sow < 604800,
        0 <= b.sow < 604800,
    ensures
        follows(a, b) <==> b.at - a.at == 300 && (b.sow - a.sow == 6 || b.sow - a.sow == 6 - 604800) && (b.frid
            - a.frid == 1 || (a.frid == 5 && b.frid == 1)),
        neighbours(a, b) <==> follows(a, b) || follows(b, a),
{
}

/// An orbit is taken for sane if the root of its semi-major axis is 5100 up to 5450 or
/// 6300 up to 6600 m^(1/2) and its eccentricity at most a twentieth.
pub proof fn law_sane_orbits(e: D1Ephemeris)
    ensures
        orbit_sane(e) <==> (2_673_868_800 <= e.sqrt_a < 2_857_369_600 || 3_303_014_400 <= e.sqrt_a < 3_460_300_800)
            && e.e * 20 <= 8_589_934_592,
{
}

/// An ephemeris is read from a subframe 1 and the subframes 2 and 3 that follow it
/// directly, in place and in time.
pub proof fn law_ephemeris_is_of_three_in_a_row(subs: Seq<SubframeView>, a: int, e: D1Ephemeris)
    requires
        0 <= a < subs.len(),
        ephemeris_from(subs, a) == Some(e),
    ensures
        subs[a].frid == 1,
        orbit_sane(e),
        exists|b: int, c: int|
            0 <= b < subs.len() && 0 <= c < subs.len() && (#[trigger] subs[b]).frid == 2 && (#[trigger] subs[c]).frid == 3
                && subs[b].at == subs[a].at + 300 && subs[c].at == subs[a].at + 600 && subs[b].sow == (subs[a].sow + 6)
                % 604800 && subs[c].sow == (subs[a].sow + 12) % 604800 && e == ephemeris_fields(
                subs[a].data,
                subs[b].data,
                subs[c].data,
            ),
{
    let s = subs[a];
    lemma_first_sub(subs, 2, s.at + 300, (s.sow + 6) % 604800, 0);
    lemma_first_sub(subs, 3, s.at + 600, (s.sow + 12) % 604800, 0);
    let b = first_sub(subs, 2, s.at + 300, (s.sow + 6) % 604800, 0)->0;
    let c = first_sub(subs, 3, s.at + 600, (s.sow + 12) % 604800, 0)->0;
    assert(subs[b].frid == 2 && subs[c].frid == 3);
}

proof fn lemma_first_sub(subs: Seq<SubframeView>, frid: int, at: int, sow: int, i: int)
    requires
        0 <= i,
    ensures
        first_sub(subs, frid, at, sow, i) matches Some(k) ==> 0 <= k < subs.len() && subs[k].frid == frid && subs[k].at
            == at && subs[k].sow == sow,
    decreases subs.len() - i,
{
    if i < subs.len() {
        lemma_first_sub(subs, frid, at, sow, i + 1);
    }
}

/// Extracts the first ephemeris whose three subframes follow one another.
pub fn parse_ephemeris(subs: &[D1Subframe]) -> (r: Option<D1Ephemeris>)
    requires
        forall|i: int| 0 <= i < subs@.len() ==> (#[trigger] subs@[i]).bit_index + 600 <= usize::MAX,
        forall|i: int| 0 <= i < subs@.len() ==> (#[trigger] subs@[i]).sow_bdt + 12 <= u32::MAX,
    ensures
        r == first_ephemeris(views(subs@), 0),
{
    let ghost v = views(subs@);
    let mut a: usize = 0;
    while a < subs.len()
        invariant
            a <= subs@.len(),
            v == views(subs@),
            forall|i: int| 0 <= i < subs@.len() ==> (#[trigger] subs@[i]).bit_index + 600 <= usize::MAX,
            forall|i: int| 0 <= i < subs@.len() ==> (#[trigger] subs@[i]).sow_bdt + 12 <= u32::MAX,
            first_ephemeris(v, 0) == first_ephemeris(v, a as int),
        decreases subs@.len() - a,
    {
        let s: &D1Subframe = &subs[a];
        assert(v[a as int] == s@);
        if s.frid == 1 {
            let b: Option<usize> = find_sub(subs, 2, s.bit_index + 300, (s.sow_bdt + 6) % WEEK_S);
            let c: Option<usize> = find_sub(subs, 3, s.bit_index + 600, (s.sow_bdt + 12) % WEEK_S);
            match (b, c) {
                (Some(b), Some(c)) => {
                    assert(v[b as int] == subs@[b as int]@);
                    assert(v[c as int] == subs@[c as int]@);
                    let e: D1Ephemeris = read_fields(
                        s.data.as_slice(),
                        subs[b].data.as_slice(),
                        subs[c].data.as_slice(),
                    );
                    let meo: bool = e.sqrt_a >= 2_673_868_800 && e.sqrt_a < 2_857_369_600;
                    let igso: bool = e.sqrt_a >= 3_303_014_400 && e.sqrt_a < 3_460_300_800;
                    if (meo || igso) && e.e <= 429_496_729 {
                        return Some(e);
                    }
                },
                _ => {},
            }
        }
        a += 1;
    }
    None
}

/// Fields of a subframe that are worth showing, in the units of the message.
#[derive(Debug, Clone, Copy, PartialEq, Eq)]
pub enum D1Fields {
    Clock { week: u64, toc_bdt: u64, af0: i64, tgd1: i64 },
    OrbitShape { sqrt_a: u64, e: u64, toe1: u64 },
    OrbitPlane { i0: i64, omega0: i64, omega: i64, toe2: u64 },
    Other,
}

impl D1Subframe {
    /// The fields of subframes 1 to 3 that are worth showing.
    pub fn debug_fields(&self) -> (r: D1Fields)
        ensures
            self.frid == 1 ==> r == (D1Fields::Clock {
                week: unsigned_at(self.data@, 60, 13) as u64,
                toc_bdt: (8 * us(self.data@, 73, 9, 90, 8)) as u64,
                af0: ss(self.data@, 225, 7, 240, 17),
                tgd1: signed_at(self.data@, 98, 10) as i64,
            }),
            self.frid == 2 ==> r == (D1Fields::OrbitShape {
                sqrt_a: us(self.data@, 250, 12, 270, 20),
                e: us(self.data@, 132, 10, 150, 22),
                toe1: unsigned_at(self.data@, 290, 2) as u64,
            }),
            self.frid == 3 ==> r == (D1Fields::OrbitPlane {
                i0: ss(self.data@, 65, 17, 90, 15),
                omega0: ss(self.data@, 211, 21, 240, 11),
                omega: ss(self.data@, 251, 11, 270, 21),
                toe2: us(self.data@, 42, 10, 60, 5),
            }),
            !(1 <= self.frid <= 3) ==> r == D1Fields::Other,
    {
        proof {
            lemma2_to64();
        }
        let d: &[u8] = self.data.as_slice();
        if self.frid == 1 {
            D1Fields::Clock {
                week: bu(d, 60, 13),
                toc_bdt: u2(d, 73, 9, 90, 8) * 8,
                af0: s2(d, 225, 7, 240, 17),
                tgd1: bi(d, 98, 10),
            }
        } else if self.frid == 2 {
            D1Fields::OrbitShape {
                sqrt_a: u2(d, 250, 12, 270, 20),
                e: u2(d, 132, 10, 150, 22),
                toe1: bu(d, 290, 2),
            }
        } else if self.frid == 3 {
            D1Fields::OrbitPlane {
                i0: s2(d, 65, 17, 90, 15),
                omega0: s2(d, 211, 21, 240, 11),
                omega: s2(d, 251, 11, 270, 21),
                toe2: u2(d, 42, 10, 60, 5),
            }
        } else {
            D1Fields::Other
        }
    }
}

// -------------------------------------------------------- secondary code
/// Whether one of the strengths is more than twice any other, and above zero.
pub open spec fn stands_out(acc: Seq<u64>, b: int) -> bool {
    &&& 0 <= b < acc.len()
    &&& value(acc[b]) > 0
    &&& forall|i: int| 0 <= i < acc.len() && i != b ==> value(acc[b]) > 2 * value(#[trigger] acc[i])
}

/// Start of the bits, given for each of the 20 starts the mean strength of the
/// secondary code, as a double: the start that stands out.
pub fn nh_peak(acc: &[u64]) -> (r: Option<usize>)
    requires
        distances(acc@),
    ensures
        r matches Some(b) ==> stands_out(acc@, b as int),
        r is None ==> forall|b: int| !stands_out(acc@, b),
{
    let n: usize = acc.len();
    let mut b: usize = 0;
    while b < n
        invariant
            n == acc@.len(),
            b <= n,
            distances(acc@),
            forall|k: int| 0 <= k < b ==> !stands_out(acc@, k),
        decreases n - b,
    {
        let mut out: bool = less(0, acc[b]);
        let mut i: usize = 0;
        while i < n
            invariant
                n == acc@.len(),
                b < n,
                i <= n,
                distances(acc@),
                out == (value(acc@[b as int]) > 0 && forall|k: int|
                    0 <= k < i && k != b ==> value(acc@[b as int]) > 2 * value(#[trigger] acc@[k])),
            decreases n - i,
        {
            if i != b && !less(twice(acc[i]), acc[b]) {
                assert(value(acc@[b as int]) <= 2 * value(acc@[i as int]));
                out = false;
            }
            i += 1;
        }
        if out {
            return Some(b);
        }
        b += 1;
    }
    None
}

/// At most one start stands out.
pub proof fn law_only_one_start_stands_out(acc: Seq<u64>, a: int, b: int)
    requires
        stands_out(acc, a),
        stands_out(acc, b),
    ensures
        a == b,
{
    if a != b {
        assert(value(acc[a]) > 2 * value(acc[b]));
        assert(value(acc[b]) > 2 * value(acc[a]));
    }
}

} // verus!
