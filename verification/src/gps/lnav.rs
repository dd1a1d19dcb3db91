//! GPS LNAV navigation message: subframes with valid parity in a stream of
//! navigation bits, and the ephemeris of subframes 1, 2 and 3.
use vstd::prelude::*;
use vstd::arithmetic::power2::{lemma2_to64, pow2};
use crate::bits::{bits_value, is_bits, lemma_signed_bound, lemma_value_bound, sbits, signed_at, signed_value, ubits, unsigned_at};

verus! {

pub const PREAMBLE: [u8; 8] = [1, 0, 0, 0, 1, 0, 1, 1];

/// Which of the last two bits of the word before takes part in each check.
pub const PAR_PREV: [u8; 6] = [29, 30, 29, 30, 30, 29];

/// The data bits that take part in each check, one row per check.
pub const PAR_TAPS: [[u8; 24]; 6] = [
    [1, 1, 1, 0, 1, 1, 0, 0, 0, 1, 1, 1, 1, 1, 0, 0, 1, 1, 0, 1, 0, 0, 1, 0],
    [0, 1, 1, 1, 0, 1, 1, 0, 0, 0, 1, 1, 1, 1, 1, 0, 0, 1, 1, 0, 1, 0, 0, 1],
    [1, 0, 1, 1, 1, 0, 1, 1, 0, 0, 0, 1, 1, 1, 1, 1, 0, 0, 1, 1, 0, 1, 0, 0],
    [0, 1, 0, 1, 1, 1, 0, 1, 1, 0, 0, 0, 1, 1, 1, 1, 1, 0, 0, 1, 1, 0, 1, 0],
    [1, 0, 1, 0, 1, 1, 1, 0, 1, 1, 0, 0, 0, 1, 1, 1, 1, 1, 0, 0, 1, 1, 0, 1],
    [0, 0, 1, 0, 1, 1, 0, 1, 1, 1, 1, 0, 1, 0, 1, 0, 0, 0, 1, 0, 0, 1, 1, 1],
];

/// A subframe with valid parity.
pub struct Subframe {
    /// subframe number, 1 to 5
    pub sfid: u8,
    /// time of week at the start of the next subframe, in units of 6 s
    pub tow_next: u32,
    /// the ten words of 24 data bits
    pub words: Vec<[u8; 24]>,
    /// place of the first bit of the preamble in the stream
    pub bit_index: usize,
}

/// What a subframe holds.
#[verifier::ext_equal]
pub struct SubframeView {
    pub sfid: nat,
    pub tow_next: nat,
    pub words: Seq<Seq<u8>>,
    pub bit_index: int,
}

impl View for Subframe {
    type V = SubframeView;

    open spec fn view(&self) -> SubframeView {
        SubframeView {
            sfid: self.sfid as nat,
            tow_next: self.tow_next as nat,
            words: Seq::new(self.words@.len(), |i: int| self.words@[i]@),
            bit_index: self.bit_index as int,
        }
    }
}

pub open spec fn views(subs: Seq<Subframe>) -> Seq<SubframeView> {
    Seq::new(subs.len(), |i: int| subs[i]@)
}

/// Data bits of a received word: the last bit of the word before inverts them.
pub open spec fn source(word: Seq<u8>, d30s: u8) -> Seq<u8> {
    Seq::new(24, |k: int| word[k] ^ d30s)
}

/// Sum over GF(2) of the data bits up to `n` that take part in check `k`.
pub open spec fn check_sum(d: Seq<u8>, prev: u8, k: int, n: int) -> u8
    decreases n,
{
    if n <= 0 {
        prev
    } else if PAR_TAPS[k][n - 1] == 1 {
        check_sum(d, prev, k, n - 1) ^ d[n - 1]
    } else {
        check_sum(d, prev, k, n - 1)
    }
}

/// Check bit `k` of a word with the given data bits.
pub open spec fn check_bit(d: Seq<u8>, d29s: u8, d30s: u8, k: int) -> u8 {
    check_sum(d, if PAR_PREV[k] == 29 { d29s } else { d30s }, k, 24)
}

/// Whether the six check bits of a received word are right.
pub open spec fn parity_ok(word: Seq<u8>, d29s: u8, d30s: u8) -> bool {
    forall|k: int| 0 <= k < 6 ==> check_bit(source(word, d30s), d29s, d30s, k) == #[trigger] word[24 + k]
}

/// Data bits of a received word of 30 bits, and whether its parity is right.
/// `d29s` and `d30s` are the last two bits of the word before.
pub fn word_decode(word: &[u8], d29s: u8, d30s: u8) -> (r: ([u8; 24], bool))
    requires
        word@.len() >= 30,
    ensures
        r.0@ == source(word@, d30s),
        r.1 == parity_ok(word@, d29s, d30s),
{
    let mut d: [u8; 24] = [0u8; 24];
    let mut k: usize = 0;
    while k < 24
        invariant
            word@.len() >= 30,
            k <= 24,
            forall|j: int| 0 <= j < k ==> #[trigger] d@[j] == word@[j] ^ d30s,
        decreases 24 - k,
    {
        d[k] = word[k] ^ d30s;
        k += 1;
    }
    assert(d@ =~= source(word@, d30s));
    let mut k: usize = 0;
    while k < 6
        invariant
            word@.len() >= 30,
            k <= 6,
            d@ == source(word@, d30s),
            forall|j: int| 0 <= j < k ==> check_bit(d@, d29s, d30s, j) == #[trigger] word@[24 + j],
        decreases 6 - k,
    {
        let prev: u8 = if PAR_PREV[k] == 29 { d29s } else { d30s };
        let mut v: u8 = prev;
        let mut n: usize = 0;
        while n < 24
            invariant
                k < 6,
                n <= 24,
                v == check_sum(d@, prev, k as int, n as int),
            decreases 24 - n,
        {
            if PAR_TAPS[k][n] == 1 {
                v = v ^ d[n];
            }
            n += 1;
        }
        if v != word[24 + k] {
            assert(!parity_ok(word@, d29s, d30s));
            return (d, false);
        }
        k += 1;
    }
    (d, true)
}

/// Unsigned field of `n` bits; bits are numbered from 1.
pub fn bu(b: &[u8], pos: usize, n: usize) -> (v: u64)
    requires
        1 <= pos,
        pos - 1 + n <= b@.len(),
        n <= 64,
    ensures
        v == unsigned_at(b@, pos - 1, n as int),
        n < 64 ==> v < pow2(n as nat),
{
    ubits(b, pos - 1, n)
}

/// Signed field of `n` bits; bits are numbered from 1.
pub fn bi(b: &[u8], pos: usize, n: usize) -> (v: i64)
    requires
        1 <= pos,
        pos - 1 + n <= b@.len(),
        1 <= n <= 62,
    ensures
        v == signed_at(b@, pos - 1, n as int),
{
    sbits(b, pos - 1, n)
}

// --------------------------------------------------------------- framing
/// Whether a preamble of either polarity stands at `i`.
pub open spec fn preamble_at(bits: Seq<u8>, i: int) -> bool {
    (forall|k: int| 0 <= k < 8 ==> bits[i + k] == #[trigger] PREAMBLE@[k]) || (forall|k: int|
        0 <= k < 8 ==> bits[i + k] == 1 - #[trigger] PREAMBLE@[k])
}

/// Data bits of word `w` of a subframe at `i`.
pub open spec fn word_at(bits: Seq<u8>, i: int, w: int) -> Seq<u8> {
    source(bits.subrange(i + 30 * w, i + 30 * w + 30), bits[i + 30 * w - 1])
}

/// Whether the parity of word `w` of a subframe at `i` is right.
pub open spec fn word_ok(bits: Seq<u8>, i: int, w: int) -> bool {
    parity_ok(bits.subrange(i + 30 * w, i + 30 * w + 30), bits[i + 30 * w - 2], bits[i + 30 * w - 1])
}

/// The subframe at one place of a stream.
pub open spec fn subframe_at(bits: Seq<u8>, i: int) -> Option<SubframeView> {
    let tow = unsigned_at(word_at(bits, i, 1), 0, 17);
    let sfid = unsigned_at(word_at(bits, i, 1), 19, 3);
    if preamble_at(bits, i) && (forall|w: int| 0 <= w < 10 ==> #[trigger] word_ok(bits, i, w)) && 1 <= sfid <= 5
        && 1 <= tow <= 100799 {
        Some(
            SubframeView {
                sfid,
                tow_next: tow,
                words: Seq::new(10, |w: int| word_at(bits, i, w)),
                bit_index: i,
            },
        )
    } else {
        None
    }
}

/// The subframes from `i` on, each taken at the first place where one stands
/// after the end of the one before.
pub open spec fn subframes_from(bits: Seq<u8>, i: int) -> Seq<SubframeView>
    decreases bits.len() - i,
{
    if i + 300 > bits.len() {
        Seq::empty()
    } else {
        match subframe_at(bits, i) {
            Some(s) => seq![s] + subframes_from(bits, i + 300),
            None => subframes_from(bits, i + 1),
        }
    }
}

/// The subframes of a stream. The first two bits only serve the parity of the
/// first word.
pub open spec fn subframes(bits: Seq<u8>) -> Seq<SubframeView> {
    subframes_from(bits, 2)
}

fn preamble_here(bits: &[u8], i: usize) -> (r: bool)
    requires
        i + 8 <= bits@.len(),
    ensures
        r == preamble_at(bits@, i as int),
{
    let len: usize = bits.len();
    let mut norm: bool = true;
    let mut inv: bool = true;
    let mut k: usize = 0;
    while k < 8
        invariant
            k <= 8,
            len == bits@.len(),
            i + 8 <= len,
            norm == (forall|j: int| 0 <= j < k ==> bits@[i + j] == #[trigger] PREAMBLE@[j]),
            inv == (forall|j: int| 0 <= j < k ==> bits@[i + j] == 1 - #[trigger] PREAMBLE@[j]),
        decreases 8 - k,
    {
        let p: u8 = PREAMBLE[k];
        assert(p <= 1);
        if bits[i + k] != p {
            assert(bits@[i + k] != PREAMBLE@[k as int]);
            norm = false;
        }
        if bits[i + k] != 1 - p {
            assert(bits@[i + k] != 1 - PREAMBLE@[k as int]);
            inv = false;
        }
        k += 1;
    }
    norm || inv
}

fn words_of(bits: &[u8], i: usize) -> (r: Option<Vec<[u8; 24]>>)
    requires
        2 <= i,
        i + 300 <= bits@.len(),
    ensures
        r is Some <==> (forall|w: int| 0 <= w < 10 ==> #[trigger] word_ok(bits@, i as int, w)),
        r matches Some(ws) ==> ws@.len() == 10 && forall|w: int|
            0 <= w < 10 ==> (#[trigger] ws@[w])@ == word_at(bits@, i as int, w),
{
    let len: usize = bits.len();
    let mut words: Vec<[u8; 24]> = Vec::new();
    let mut w: usize = 0;
    while w < 10
        invariant
            2 <= i,
            len == bits@.len(),
            i + 300 <= len,
            w <= 10,
            words@.len() == w,
            forall|v: int| 0 <= v < w ==> #[trigger] word_ok(bits@, i as int, v),
            forall|v: int| 0 <= v < w ==> (#[trigger] words@[v])@ == word_at(bits@, i as int, v),
        decreases 10 - w,
    {
        let at: usize = i + 30 * w;
        let word: &[u8] = vstd::slice::slice_subrange(bits, at, at + 30);
        let (d, good) = word_decode(word, bits[at - 2], bits[at - 1]);
        if !good {
            assert(!word_ok(bits@, i as int, w as int));
            return None;
        }
        words.push(d);
        w += 1;
    }
    Some(words)
}

/// Subframes of a stream of navigation bits of either polarity.
pub fn find_subframes(bits: &[u8]) -> (out: Vec<Subframe>)
    ensures
        views(out@) == subframes(bits@),
{
    let n: usize = bits.len();
    let mut out: Vec<Subframe> = Vec::new();
    let mut i: usize = 2;
    assert(views(out@) + subframes_from(bits@, 2) =~= subframes(bits@));
    while i <= n && n - i >= 300
        invariant
            n == bits@.len(),
            2 <= i,
            views(out@) + subframes_from(bits@, i as int) == subframes(bits@),
        decreases n - i,
    {
        let ghost before = views(out@);
        if !preamble_here(bits, i) {
            i += 1;
            continue;
        }
        match words_of(bits, i) {
            None => {
                i += 1;
            },
            Some(words) => {
                let tow: u64 = bu(words[1].as_slice(), 1, 17);
                let sfid: u64 = bu(words[1].as_slice(), 20, 3);
                if sfid < 1 || sfid > 5 || tow == 0 || tow > 100799 {
                    i += 1;
                    continue;
                }
                let s = Subframe { sfid: sfid as u8, tow_next: tow as u32, words, bit_index: i };
                assert(s@.words =~= subframe_at(bits@, i as int)->0.words);
                let ghost sv = s@;
                out.push(s);
                assert(views(out@) =~= before.push(sv));
                assert(before.push(sv) + subframes_from(bits@, i + 300) =~= before + (seq![sv] + subframes_from(
                    bits@,
                    i + 300,
                )));
                i += 300;
            },
        }
    }
    assert(views(out@) =~= subframes(bits@));
    out
}

// ------------------------------------------------------------------ laws
pub open spec fn inverted(s: Seq<u8>) -> Seq<u8> {
    Seq::new(s.len(), |i: int| (1 - s[i]) as u8)
}

proof fn lemma_xor_inverse(a: u8, b: u8)
    by (bit_vector)
    ensures
        a <= 1 && b <= 1 ==> (1 - a) as u8 ^ (1 - b) as u8 == a ^ b,
        a <= 1 && b <= 1 ==> (1 - a) as u8 ^ b == (1 - (a ^ b)) as u8,
        a <= 1 && b <= 1 ==> a ^ b <= 1,
{
}

proof fn lemma_check_inverse(d: Seq<u8>, prev: u8, k: int, n: int)
    requires
        is_bits(d),
        d.len() == 24,
        prev <= 1,
        0 <= n <= 24,
        0 <= k < 6,
    ensures
        check_sum(d, prev, k, n) <= 1,
        check_sum(d, (1 - prev) as u8, k, n) == 1 - check_sum(d, prev, k, n),
    decreases n,
{
    if n > 0 {
        lemma_check_inverse(d, prev, k, n - 1);
        lemma_xor_inverse(check_sum(d, prev, k, n - 1), d[n - 1]);
    }
}

proof fn lemma_word_inverse(word: Seq<u8>, d29s: u8, d30s: u8)
    requires
        is_bits(word),
        word.len() == 30,
        d29s <= 1,
        d30s <= 1,
    ensures
        source(inverted(word), (1 - d30s) as u8) == source(word, d30s),
        parity_ok(inverted(word), (1 - d29s) as u8, (1 - d30s) as u8) == parity_ok(word, d29s, d30s),
{
    let d = source(word, d30s);
    let word2 = inverted(word);
    let e29 = (1 - d29s) as u8;
    let e30 = (1 - d30s) as u8;
    assert forall|k: int| 0 <= k < 24 implies word2[k] ^ e30 == #[trigger] d[k] && d[k] <= 1 by {
        lemma_xor_inverse(word[k], d30s);
    }
    assert(source(word2, e30) =~= d);
    assert(is_bits(d));
    assert forall|k: int| 0 <= k < 6 implies check_bit(d, e29, e30, k) == 1 - #[trigger] check_bit(d, d29s, d30s, k)
        && check_bit(d, d29s, d30s, k) <= 1 by {
        lemma_check_inverse(d, if PAR_PREV[k] == 29 { d29s } else { d30s }, k, 24);
    }
    assert forall|k: int| 0 <= k < 6 implies (check_bit(d, e29, e30, k) == word2[24 + k]) == (check_bit(
        d,
        d29s,
        d30s,
        k,
    ) == #[trigger] word[24 + k]) by {
        assert(word[24 + k] <= 1);
        assert(check_bit(d, e29, e30, k) == 1 - check_bit(d, d29s, d30s, k));
    }
    if parity_ok(word, d29s, d30s) {
        assert forall|k: int| 0 <= k < 6 implies check_bit(source(word2, e30), e29, e30, k) == #[trigger] word2[24 + k] by {
            assert(check_bit(d, d29s, d30s, k) == word[24 + k]);
        }
    }
    if parity_ok(word2, e29, e30) {
        assert forall|k: int| 0 <= k < 6 implies check_bit(d, d29s, d30s, k) == #[trigger] word[24 + k] by {
            assert(check_bit(source(word2, e30), e29, e30, k) == word2[24 + k]);
        }
    }
}

proof fn lemma_preamble_inverse(bits: Seq<u8>, i: int)
    requires
        is_bits(bits),
        0 <= i,
        i + 8 <= bits.len(),
        preamble_at(bits, i),
    ensures
        preamble_at(inverted(bits), i),
{
    let inv = inverted(bits);
    assert forall|k: int| 0 <= k < 8 implies #[trigger] inv[i + k] == 1 - bits[i + k] by {
        assert(bits[i + k] <= 1);
    }
    if forall|k: int| 0 <= k < 8 ==> bits[i + k] == #[trigger] PREAMBLE@[k] {
        assert forall|k: int| 0 <= k < 8 implies inv[i + k] == 1 - #[trigger] PREAMBLE@[k] by {
            assert(bits[i + k] == PREAMBLE@[k]);
        }
    } else {
        assert forall|k: int| 0 <= k < 8 implies inv[i + k] == #[trigger] PREAMBLE@[k] by {
            assert(bits[i + k] == 1 - PREAMBLE@[k]);
        }
    }
}

proof fn lemma_subframe_inverse(bits: Seq<u8>, i: int)
    requires
        is_bits(bits),
        2 <= i,
        i + 300 <= bits.len(),
    ensures
        subframe_at(inverted(bits), i) == subframe_at(bits, i),
{
    let inv = inverted(bits);
    assert forall|w: int| 0 <= w < 10 implies #[trigger] word_ok(inv, i, w) == word_ok(bits, i, w) && word_at(inv, i, w)
        == word_at(bits, i, w) by {
        let p = i + 30 * w;
        let word = bits.subrange(p, p + 30);
        assert(bits[p - 1] <= 1 && bits[p - 2] <= 1);
        assert(inv.subrange(p, p + 30) =~= inverted(word));
        lemma_word_inverse(word, bits[p - 2], bits[p - 1]);
    }
    if preamble_at(bits, i) {
        lemma_preamble_inverse(bits, i);
    }
    if preamble_at(inv, i) {
        lemma_preamble_inverse(inv, i);
        assert(inverted(inv) =~= bits);
    }
    assert(word_ok(inv, i, 1) == word_ok(bits, i, 1));
    assert(Seq::new(10, |w: int| word_at(inv, i, w)) =~= Seq::new(10, |w: int| word_at(bits, i, w))) by {
        assert forall|w: int| 0 <= w < 10 implies word_at(inv, i, w) == word_at(bits, i, w) by {
            assert(word_ok(inv, i, w) == word_ok(bits, i, w));
        }
    }
    assert((forall|w: int| 0 <= w < 10 ==> #[trigger] word_ok(inv, i, w)) == (forall|w: int|
        0 <= w < 10 ==> #[trigger] word_ok(bits, i, w))) by {
        if forall|w: int| 0 <= w < 10 ==> #[trigger] word_ok(inv, i, w) {
            assert forall|w: int| 0 <= w < 10 implies #[trigger] word_ok(bits, i, w) by {
                assert(word_ok(inv, i, w));
            }
        }
    }
}

proof fn lemma_subframes_inverse(bits: Seq<u8>, i: int)
    requires
        is_bits(bits),
        2 <= i,
    ensures
        subframes_from(inverted(bits), i) == subframes_from(bits, i),
    decreases bits.len() - i,
{
    if i + 300 <= bits.len() {
        lemma_subframe_inverse(bits, i);
        lemma_subframes_inverse(bits, i + 300);
        lemma_subframes_inverse(bits, i + 1);
    }
}

/// The polarity of the bit stream does not matter.
pub proof fn law_framing_ignores_polarity(bits: Seq<u8>)
    requires
        is_bits(bits),
    ensures
        subframes(inverted(bits)) == subframes(bits),
{
    lemma_subframes_inverse(bits, 2);
}

proof fn lemma_places(bits: Seq<u8>, i: int, k: int)
    requires
        2 <= i,
        0 <= k < subframes_from(bits, i).len(),
    ensures
        i <= subframes_from(bits, i)[k].bit_index,
        subframe_at(bits, subframes_from(bits, i)[k].bit_index) == Some(subframes_from(bits, i)[k]),
        subframes_from(bits, i)[k].bit_index + 300 <= bits.len(),
        k > 0 ==> subframes_from(bits, i)[k - 1].bit_index + 300 <= subframes_from(bits, i)[k].bit_index,
    decreases bits.len() - i,
{
    if i + 300 <= bits.len() {
        match subframe_at(bits, i) {
            Some(s) => {
                let rest = subframes_from(bits, i + 300);
                assert(subframes_from(bits, i) =~= seq![s] + rest);
                if k > 0 {
                    lemma_places(bits, i + 300, k - 1);
                    assert(subframes_from(bits, i)[k] == rest[k - 1]);
                    if k > 1 {
                        assert(subframes_from(bits, i)[k - 1] == rest[k - 2]);
                    }
                }
            },
            None => {
                lemma_places(bits, i + 1, k);
            },
        }
    }
}

/// Each subframe stands where it says, on a preamble, with a valid number and
/// time, and no two overlap.
pub proof fn law_subframes_stand_apart(bits: Seq<u8>, j: int, k: int)
    requires
        0 <= j < k < subframes(bits).len(),
    ensures
        subframes(bits)[j].bit_index + 300 <= subframes(bits)[k].bit_index,
        subframes(bits)[k].bit_index + 300 <= bits.len(),
        preamble_at(bits, subframes(bits)[k].bit_index),
        1 <= subframes(bits)[k].sfid <= 5,
        1 <= subframes(bits)[k].tow_next <= 100799,
    decreases k - j,
{
    lemma_places(bits, 2, k);
    if j < k - 1 {
        law_subframes_stand_apart(bits, j, k - 1);
    }
}

proof fn lemma_found(bits: Seq<u8>, i: int, p: int)
    requires
        2 <= i <= p,
        p + 300 <= bits.len(),
        subframe_at(bits, p) is Some,
    ensures
        exists|k: int|
            0 <= k < subframes_from(bits, i).len() && p - 300 < (#[trigger] subframes_from(bits, i)[k]).bit_index <= p,
    decreases bits.len() - i,
{
    let all = subframes_from(bits, i);
    match subframe_at(bits, i) {
        Some(s) => {
            let rest = subframes_from(bits, i + 300);
            assert(all =~= seq![s] + rest);
            if p < i + 300 {
                assert(all[0].bit_index == i);
            } else {
                lemma_found(bits, i + 300, p);
                let k = choose|k: int| 0 <= k < rest.len() && p - 300 < (#[trigger] rest[k]).bit_index <= p;
                assert(all[k + 1] == rest[k]);
            }
        },
        None => {
            lemma_found(bits, i + 1, p);
        },
    }
}

/// No subframe is passed over: wherever one stands, it is taken or overlaps one
/// that was taken before it.
pub proof fn law_no_subframe_is_passed_over(bits: Seq<u8>, p: int)
    requires
        2 <= p,
        p + 300 <= bits.len(),
        subframe_at(bits, p) is Some,
    ensures
        exists|k: int|
            0 <= k < subframes(bits).len() && p - 300 < (#[trigger] subframes(bits)[k]).bit_index <= p,
{
    lemma_found(bits, 2, p);
    let k = choose|k: int|
        0 <= k < subframes_from(bits, 2).len() && p - 300 < (#[trigger] subframes_from(bits, 2)[k]).bit_index <= p;
    assert(subframes(bits)[k] == subframes_from(bits, 2)[k]);
}

// ------------------------------------------------------------- ephemeris
/// The ephemeris of one satellite in the units of the message: times of 16 s,
/// angles of 2^-31 half-turns, their rates of 2^-43 half-turns per second,
/// harmonic corrections of 2^-29 radians and 2^-5 m, the eccentricity of 2^-33,
/// the root of the semi-major axis of 2^-19 m^(1/2), clock terms of 2^-31 s,
/// 2^-43 and 2^-55 per second. A health of zero is good; the fit interval is in
/// hours and unknown if it is longer than the usual four.
#[derive(Debug, Clone, Copy, PartialEq, Eq)]
pub struct LnavEphemeris {
    pub week: u16,
    pub iodc: u16,
    pub iode: u8,
    pub health: u8,
    pub fit_h: Option<u8>,
    pub tgd: i64,
    pub toc: u64,
    pub af0: i64,
    pub af1: i64,
    pub af2: i64,
    pub toe: u64,
    pub sqrt_a: u64,
    pub e: u64,
    pub m0: i64,
    pub delta_n: i64,
    pub i0: i64,
    pub idot: i64,
    pub omega0: i64,
    pub omega: i64,
    pub omega_dot: i64,
    pub cuc: i64,
    pub cus: i64,
    pub crc: i64,
    pub crs: i64,
    pub cic: i64,
    pub cis: i64,
}

/// Eight bits at the end of one word followed by the whole next one.
pub open spec fn long_field(w: Seq<Seq<u8>>, k: int) -> Seq<u8> {
    w[k].subrange(16, 24) + w[k + 1].subrange(0, 24)
}

/// The fields of subframes 1, 2 and 3.
pub open spec fn fields(w1: Seq<Seq<u8>>, w2: Seq<Seq<u8>>, w3: Seq<Seq<u8>>) -> LnavEphemeris {
    LnavEphemeris {
        week: unsigned_at(w1[2], 0, 10) as u16,
        health: unsigned_at(w1[2], 16, 6) as u8,
        fit_h: if unsigned_at(w2[9], 16, 1) == 0 {
            Some(4u8)
        } else {
            None
        },
        iodc: bits_value(w1[2].subrange(22, 24) + w1[7].subrange(0, 8)) as u16,
        tgd: signed_at(w1[6], 16, 8) as i64,
        toc: unsigned_at(w1[7], 8, 16) as u64,
        af2: signed_at(w1[8], 0, 8) as i64,
        af1: signed_at(w1[8], 8, 16) as i64,
        af0: signed_at(w1[9], 0, 22) as i64,
        iode: unsigned_at(w2[2], 0, 8) as u8,
        crs: signed_at(w2[2], 8, 16) as i64,
        delta_n: signed_at(w2[3], 0, 16) as i64,
        m0: signed_value(long_field(w2, 3)) as i64,
        cuc: signed_at(w2[5], 0, 16) as i64,
        e: bits_value(long_field(w2, 5)) as u64,
        cus: signed_at(w2[7], 0, 16) as i64,
        sqrt_a: bits_value(long_field(w2, 7)) as u64,
        toe: unsigned_at(w2[9], 0, 16) as u64,
        cic: signed_at(w3[2], 0, 16) as i64,
        omega0: signed_value(long_field(w3, 2)) as i64,
        cis: signed_at(w3[4], 0, 16) as i64,
        i0: signed_value(long_field(w3, 4)) as i64,
        crc: signed_at(w3[6], 0, 16) as i64,
        omega: signed_value(long_field(w3, 6)) as i64,
        omega_dot: signed_at(w3[8], 0, 24) as i64,
        idot: signed_at(w3[9], 8, 14) as i64,
    }
}

/// Words of the first subframe with the given number.
pub open spec fn first_words(subs: Seq<SubframeView>, sfid: nat) -> Option<Seq<Seq<u8>>>
    decreases subs.len(),
{
    if subs.len() == 0 {
        None
    } else if subs[0].sfid == sfid {
        Some(subs[0].words)
    } else {
        first_words(subs.skip(1), sfid)
    }
}

/// Whether the issue numbers of the three subframes agree.
pub open spec fn one_issue(e: LnavEphemeris, w3: Seq<Seq<u8>>) -> bool {
    e.iode == unsigned_at(w3[9], 0, 8) && e.iode == e.iodc % 256
}

/// Whether the root of the semi-major axis is 5000 up to 5500 m^(1/2) and the
/// eccentricity is below 0.05.
pub open spec fn plausible(e: LnavEphemeris) -> bool {
    5000 * 0x8_0000 <= e.sqrt_a < 5500 * 0x8_0000 && 20 * e.e < 0x2_0000_0000
}

/// The ephemeris of the subframes of one satellite.
pub open spec fn ephemeris_of(subs: Seq<SubframeView>) -> Option<LnavEphemeris> {
    match (first_words(subs, 1), first_words(subs, 2), first_words(subs, 3)) {
        (Some(w1), Some(w2), Some(w3)) => {
            let e = fields(w1, w2, w3);
            if one_issue(e, w3) && plausible(e) {
                Some(e)
            } else {
                None
            }
        },
        _ => None,
    }
}

/// Whether the subframes that the ephemeris is read from are whole: the first of
/// each number, where there is one of each.
pub open spec fn whole(subs: Seq<Subframe>) -> bool {
    match (first_words(views(subs), 1), first_words(views(subs), 2), first_words(views(subs), 3)) {
        (Some(w1), Some(w2), Some(w3)) => w1.len() >= 10 && w2.len() >= 10 && w3.len() >= 10,
        _ => true,
    }
}

/// Where the fields of subframe 1 stand, word by word; words are numbered from zero.
pub proof fn law_places_in_subframe1(
    w1: Seq<Seq<u8>>,
    w2: Seq<Seq<u8>>,
    w3: Seq<Seq<u8>>,
    week: Seq<u8>,
    codes: Seq<u8>,
    ura: Seq<u8>,
    health: Seq<u8>,
    iodc_high: Seq<u8>,
    pad_tgd: Seq<u8>,
    tgd: Seq<u8>,
    iodc_low: Seq<u8>,
    toc: Seq<u8>,
    af2: Seq<u8>,
    af1: Seq<u8>,
    af0: Seq<u8>,
    pad_af0: Seq<u8>,
)
    requires
        week.len() == 10,
        codes.len() == 2,
        ura.len() == 4,
        health.len() == 6,
        iodc_high.len() == 2,
        pad_tgd.len() == 16,
        tgd.len() == 8,
        iodc_low.len() == 8,
        toc.len() == 16,
        af2.len() == 8,
        af1.len() == 16,
        af0.len() == 22,
        pad_af0.len() == 2,
        w1[2] == week + codes + ura + health + iodc_high,
        w1[6] == pad_tgd + tgd,
        w1[7] == iodc_low + toc,
        w1[8] == af2 + af1,
        w1[9] == af0 + pad_af0,
    ensures
        ({
            let e = fields(w1, w2, w3);
            &&& e.week == bits_value(week)
            &&& e.health == bits_value(health)
            &&& e.iodc == bits_value(iodc_high + iodc_low)
            &&& e.tgd == signed_value(tgd)
            &&& e.toc == bits_value(toc)
            &&& e.af2 == signed_value(af2)
            &&& e.af1 == signed_value(af1)
            &&& e.af0 == signed_value(af0)
        }),
{
    lemma2_to64();
    assert(w1[2].subrange(0, 10) =~= week);
    lemma_value_bound(week);
    assert(w1[2].subrange(16, 22) =~= health);
    lemma_value_bound(health);
    assert(w1[2].subrange(22, 24) =~= iodc_high);
    lemma_value_bound(iodc_high + iodc_low);
    assert(w1[6].subrange(16, 24) =~= tgd);
    lemma_signed_bound(tgd);
    assert(w1[7].subrange(0, 8) =~= iodc_low);
    assert(w1[7].subrange(8, 24) =~= toc);
    lemma_value_bound(toc);
    assert(w1[8].subrange(0, 8) =~= af2);
    lemma_signed_bound(af2);
    assert(w1[8].subrange(8, 24) =~= af1);
    lemma_signed_bound(af1);
    assert(w1[9].subrange(0, 22) =~= af0);
    lemma_signed_bound(af0);
}

/// Where the fields of subframe 2 stand, word by word; words are numbered from zero.
pub proof fn law_places_in_subframe2(
    w1: Seq<Seq<u8>>,
    w2: Seq<Seq<u8>>,
    w3: Seq<Seq<u8>>,
    iode: Seq<u8>,
    crs: Seq<u8>,
    delta_n: Seq<u8>,
    m0_high: Seq<u8>,
    m0_low: Seq<u8>,
    cuc: Seq<u8>,
    e_high: Seq<u8>,
    e_low: Seq<u8>,
    cus: Seq<u8>,
    sqrt_a_high: Seq<u8>,
    sqrt_a_low: Seq<u8>,
    toe: Seq<u8>,
    fit: Seq<u8>,
    pad_toe: Seq<u8>,
)
    requires
        iode.len() == 8,
        crs.len() == 16,
        delta_n.len() == 16,
        m0_high.len() == 8,
        m0_low.len() == 24,
        cuc.len() == 16,
        e_high.len() == 8,
        e_low.len() == 24,
        cus.len() == 16,
        sqrt_a_high.len() == 8,
        sqrt_a_low.len() == 24,
        toe.len() == 16,
        fit.len() == 1,
        pad_toe.len() == 7,
        is_bits(fit),
        w2[2] == iode + crs,
        w2[3] == delta_n + m0_high,
        w2[4] == m0_low,
        w2[5] == cuc + e_high,
        w2[6] == e_low,
        w2[7] == cus + sqrt_a_high,
        w2[8] == sqrt_a_low,
        w2[9] == toe + fit + pad_toe,
    ensures
        ({
            let e = fields(w1, w2, w3);
            &&& e.iode == bits_value(iode)
            &&& e.crs == signed_value(crs)
            &&& e.delta_n == signed_value(delta_n)
            &&& e.m0 == signed_value(m0_high + m0_low)
            &&& e.cuc == signed_value(cuc)
            &&& e.e == bits_value(e_high + e_low)
            &&& e.cus == signed_value(cus)
            &&& e.sqrt_a == bits_value(sqrt_a_high + sqrt_a_low)
            &&& e.toe == bits_value(toe)
            &&& e.fit_h == (if fit[0] == 0 { Some(4u8) } else { None })
        }),
{
    lemma2_to64();
    assert(w2[2].subrange(0, 8) =~= iode);
    lemma_value_bound(iode);
    assert(w2[2].subrange(8, 24) =~= crs);
    lemma_signed_bound(crs);
    assert(w2[3].subrange(0, 16) =~= delta_n);
    lemma_signed_bound(delta_n);
    assert(w2[3].subrange(16, 24) =~= m0_high);
    lemma_signed_bound(m0_high + m0_low);
    assert(w2[4].subrange(0, 24) =~= m0_low);
    assert(w2[5].subrange(0, 16) =~= cuc);
    lemma_signed_bound(cuc);
    assert(w2[5].subrange(16, 24) =~= e_high);
    lemma_value_bound(e_high + e_low);
    assert(w2[6].subrange(0, 24) =~= e_low);
    assert(w2[7].subrange(0, 16) =~= cus);
    lemma_signed_bound(cus);
    assert(w2[7].subrange(16, 24) =~= sqrt_a_high);
    lemma_value_bound(sqrt_a_high + sqrt_a_low);
    assert(w2[8].subrange(0, 24) =~= sqrt_a_low);
    assert(w2[9].subrange(0, 16) =~= toe);
    lemma_value_bound(toe);
    assert(w2[9].subrange(16, 17) =~= fit);
    assert(fit.drop_last() =~= Seq::<u8>::empty());
    assert(fit[0] <= 1);
    assert(bits_value(fit) == fit[0]) by {
        reveal_with_fuel(bits_value, 2);
    }
}

/// Where the fields of subframe 3 stand, word by word; words are numbered from zero.
pub proof fn law_places_in_subframe3(
    w1: Seq<Seq<u8>>,
    w2: Seq<Seq<u8>>,
    w3: Seq<Seq<u8>>,
    cic: Seq<u8>,
    omega0_high: Seq<u8>,
    omega0_low: Seq<u8>,
    cis: Seq<u8>,
    i0_high: Seq<u8>,
    i0_low: Seq<u8>,
    crc: Seq<u8>,
    omega_high: Seq<u8>,
    omega_low: Seq<u8>,
    omega_dot: Seq<u8>,
    iode3: Seq<u8>,
    idot: Seq<u8>,
    pad_idot: Seq<u8>,
)
    requires
        cic.len() == 16,
        omega0_high.len() == 8,
        omega0_low.len() == 24,
        cis.len() == 16,
        i0_high.len() == 8,
        i0_low.len() == 24,
        crc.len() == 16,
        omega_high.len() == 8,
        omega_low.len() == 24,
        omega_dot.len() == 24,
        iode3.len() == 8,
        idot.len() == 14,
        pad_idot.len() == 2,
        w3[2] == cic + omega0_high,
        w3[3] == omega0_low,
        w3[4] == cis + i0_high,
        w3[5] == i0_low,
        w3[6] == crc + omega_high,
        w3[7] == omega_low,
        w3[8] == omega_dot,
        w3[9] == iode3 + idot + pad_idot,
    ensures
        ({
            let e = fields(w1, w2, w3);
            &&& e.cic == signed_value(cic)
            &&& e.omega0 == signed_value(omega0_high + omega0_low)
            &&& e.cis == signed_value(cis)
            &&& e.i0 == signed_value(i0_high + i0_low)
            &&& e.crc == signed_value(crc)
            &&& e.omega == signed_value(omega_high + omega_low)
            &&& e.omega_dot == signed_value(omega_dot)
            &&& one_issue(e, w3) <==> e.iode == bits_value(iode3) && e.iodc % 256 == bits_value(iode3)
            &&& e.idot == signed_value(idot)
        }),
{
    lemma2_to64();
    assert(w3[2].subrange(0, 16) =~= cic);
    lemma_signed_bound(cic);
    assert(w3[2].subrange(16, 24) =~= omega0_high);
    lemma_signed_bound(omega0_high + omega0_low);
    assert(w3[3].subrange(0, 24) =~= omega0_low);
    assert(w3[4].subrange(0, 16) =~= cis);
    lemma_signed_bound(cis);
    assert(w3[4].subrange(16, 24) =~= i0_high);
    lemma_signed_bound(i0_high + i0_low);
    assert(w3[5].subrange(0, 24) =~= i0_low);
    assert(w3[6].subrange(0, 16) =~= crc);
    lemma_signed_bound(crc);
    assert(w3[6].subrange(16, 24) =~= omega_high);
    lemma_signed_bound(omega_high + omega_low);
    assert(w3[7].subrange(0, 24) =~= omega_low);
    assert(w3[8].subrange(0, 24) =~= omega_dot);
    lemma_signed_bound(omega_dot);
    assert(w3[9].subrange(0, 8) =~= iode3);
    lemma_value_bound(iode3);
    assert(w3[9].subrange(8, 22) =~= idot);
    lemma_signed_bound(idot);
}

/// There is an ephemeris exactly if there are subframes of all three numbers, the
/// issue numbers of the first of each agree, and the orbit is plausible: the root of
/// the semi-major axis at least 5000 and below 5500 m^(1/2), the eccentricity below a
/// twentieth. It is then read from the first of each.
pub proof fn law_ephemeris_is_of_the_first_subframes(subs: Seq<SubframeView>, i: int, j: int, k: int)
    requires
        0 <= i < subs.len(),
        0 <= j < subs.len(),
        0 <= k < subs.len(),
        subs[i].sfid == 1,
        subs[j].sfid == 2,
        subs[k].sfid == 3,
        forall|n: int| 0 <= n < i ==> (#[trigger] subs[n]).sfid != 1,
        forall|n: int| 0 <= n < j ==> (#[trigger] subs[n]).sfid != 2,
        forall|n: int| 0 <= n < k ==> (#[trigger] subs[n]).sfid != 3,
    ensures
        ({
            let e = fields(subs[i].words, subs[j].words, subs[k].words);
            &&& ephemeris_of(subs) is Some <==> one_issue(e, subs[k].words) && 2_621_440_000 <= e.sqrt_a
                < 2_883_584_000 && e.e * 20 < 8_589_934_592
            &&& ephemeris_of(subs) is Some ==> ephemeris_of(subs) == Some(e)
        }),
{
    lemma_first_words(subs, 1, i);
    lemma_first_words(subs, 2, j);
    lemma_first_words(subs, 3, k);
}

/// Without a subframe of each of the three numbers there is no ephemeris.
pub proof fn law_three_subframes_are_needed(subs: Seq<SubframeView>, sfid: nat)
    requires
        1 <= sfid <= 3,
        forall|n: int| 0 <= n < subs.len() ==> (#[trigger] subs[n]).sfid != sfid,
    ensures
        ephemeris_of(subs) is None,
{
    lemma_no_words(subs, sfid);
}

proof fn lemma_first_words(subs: Seq<SubframeView>, sfid: nat, i: int)
    requires
        0 <= i < subs.len(),
        subs[i].sfid == sfid,
        forall|n: int| 0 <= n < i ==> (#[trigger] subs[n]).sfid != sfid,
    ensures
        first_words(subs, sfid) == Some(subs[i].words),
    decreases subs.len(),
{
    if i > 0 {
        assert(subs[0].sfid != sfid);
        let rest = subs.skip(1);
        assert forall|n: int| 0 <= n < i - 1 implies (#[trigger] rest[n]).sfid != sfid by {
            assert(subs[n + 1].sfid != sfid);
        }
        lemma_first_words(rest, sfid, i - 1);
    }
}

proof fn lemma_no_words(subs: Seq<SubframeView>, sfid: nat)
    requires
        forall|n: int| 0 <= n < subs.len() ==> (#[trigger] subs[n]).sfid != sfid,
    ensures
        first_words(subs, sfid) is None,
    decreases subs.len(),
{
    if subs.len() > 0 {
        assert(subs[0].sfid != sfid);
        let rest = subs.skip(1);
        assert forall|n: int| 0 <= n < rest.len() implies (#[trigger] rest[n]).sfid != sfid by {
            assert(subs[n + 1].sfid != sfid);
        }
        lemma_no_words(rest, sfid);
    }
}

/// The time of the next subframe is in the first 17 bits of the second word of a
/// subframe and its number in the 20th to 22nd. The ten words follow one another every
/// 30 bits, and the data of a word are inverted by the bit in front of it.
pub proof fn law_places_in_a_subframe(bits: Seq<u8>, i: int, tow: Seq<u8>, flags: Seq<u8>, id: Seq<u8>, end: Seq<u8>)
    requires
        2 <= i,
        i + 300 <= bits.len(),
        is_bits(bits),
        tow.len() == 17,
        flags.len() == 2,
        id.len() == 3,
        end.len() == 2,
        forall|k: int| 0 <= k < 24 ==> #[trigger] (tow + flags + id + end)[k] == (if bits[i + 29] == 0 {
            bits[i + 30 + k] as int
        } else {
            1 - bits[i + 30 + k]
        }),
    ensures
        subframe_at(bits, i) matches Some(s) ==> {
            &&& s.bit_index == i
            &&& s.tow_next == bits_value(tow)
            &&& s.sfid == bits_value(id)
            &&& s.words.len() == 10
            &&& s.words[1] == tow + flags + id + end
            &&& forall|w: int, k: int|
                0 <= w < 10 && 0 <= k < 24 ==> #[trigger] s.words[w][k] == (if bits[i + 30 * w - 1] == 0 {
                    bits[i + 30 * w + k] as int
                } else {
                    1 - bits[i + 30 * w + k]
                })
        },
{
    let d = tow + flags + id + end;
    assert forall|w: int, k: int| 0 <= w < 10 && 0 <= k < 24 implies #[trigger] word_at(bits, i, w)[k] == (if bits[i + 30
        * w - 1] == 0 {
        bits[i + 30 * w + k] as int
    } else {
        1 - bits[i + 30 * w + k]
    }) by {
        let p = i + 30 * w;
        assert(bits[p - 1] <= 1 && bits[p + k] <= 1);
        assert(bits.subrange(p, p + 30)[k] == bits[p + k]);
        lemma_xor_inverse(bits[p + k], bits[p - 1]);
        lemma_xor_zero(bits[p + k]);
    }
    assert(word_at(bits, i, 1) =~= d) by {
        assert forall|k: int| 0 <= k < 24 implies word_at(bits, i, 1)[k] == d[k] by {}
    }
    assert(d.subrange(0, 17) =~= tow);
    assert(d.subrange(19, 22) =~= id);
}

proof fn lemma_xor_zero(a: u8)
    by (bit_vector)
    ensures
        a ^ 0u8 == a,
        a <= 1 ==> a ^ 1u8 == 1 - a,
{
}

/// The six checks of a word: each is the sum over GF(2) of one of the last two bits of
/// the word before and of the data bits with these numbers, less one.
pub proof fn law_check_equations(d: Seq<u8>, d29s: u8, d30s: u8)
    requires
        d.len() == 24,
    ensures
        check_bit(d, d29s, d30s, 0) == d29s ^ d[0] ^ d[1] ^ d[2] ^ d[4] ^ d[5] ^ d[9] ^ d[10] ^ d[11] ^ d[12] ^ d[13] ^ d[16] ^ d[17] ^ d[19] ^ d[22],
        check_bit(d, d29s, d30s, 1) == d30s ^ d[1] ^ d[2] ^ d[3] ^ d[5] ^ d[6] ^ d[10] ^ d[11] ^ d[12] ^ d[13] ^ d[14] ^ d[17] ^ d[18] ^ d[20] ^ d[23],
        check_bit(d, d29s, d30s, 2) == d29s ^ d[0] ^ d[2] ^ d[3] ^ d[4] ^ d[6] ^ d[7] ^ d[11] ^ d[12] ^ d[13] ^ d[14] ^ d[15] ^ d[18] ^ d[19] ^ d[21],
        check_bit(d, d29s, d30s, 3) == d30s ^ d[1] ^ d[3] ^ d[4] ^ d[5] ^ d[7] ^ d[8] ^ d[12] ^ d[13] ^ d[14] ^ d[15] ^ d[16] ^ d[19] ^ d[20] ^ d[22],
        check_bit(d, d29s, d30s, 4) == d30s ^ d[0] ^ d[2] ^ d[4] ^ d[5] ^ d[6] ^ d[8] ^ d[9] ^ d[13] ^ d[14] ^ d[15] ^ d[16] ^ d[17] ^ d[20] ^ d[21] ^ d[23],
        check_bit(d, d29s, d30s, 5) == d29s ^ d[2] ^ d[4] ^ d[5] ^ d[7] ^ d[8] ^ d[9] ^ d[10] ^ d[12] ^ d[14] ^ d[18] ^ d[21] ^ d[22] ^ d[23],
{
    reveal_with_fuel(check_sum, 25);
}

fn find_first(subs: &[Subframe], sfid: u8) -> (r: Option<usize>)
    ensures
        r is Some <==> first_words(views(subs@), sfid as nat) is Some,
        r matches Some(i) ==> i < subs@.len() && subs@[i as int].sfid == sfid && subs@[i as int]@.words
            == first_words(views(subs@), sfid as nat)->0,
{
    let n: usize = subs.len();
    let ghost v = views(subs@);
    let mut i: usize = 0;
    assert(v.skip(0) =~= v);
    while i < n
        invariant
            n == subs@.len(),
            i <= n,
            v == views(subs@),
            first_words(v.skip(i as int), sfid as nat) == first_words(v, sfid as nat),
        decreases n - i,
    {
        assert(v.skip(i as int)[0] == subs@[i as int]@);
        assert(v.skip(i as int).skip(1) =~= v.skip(i + 1));
        if subs[i].sfid == sfid {
            return Some(i);
        }
        i += 1;
    }
    None
}

fn long_bits(w: &Vec<[u8; 24]>, k: usize) -> (b: Vec<u8>)
    requires
        k + 1 < w@.len(),
    ensures
        b@ == w@[k as int]@.subrange(16, 24) + w@[k + 1]@.subrange(0, 24),
        b@.len() == 32,
{
    let len: usize = w.len();
    assert(k + 1 < len);
    parts(w[k].as_slice(), 16, 8, w[k + 1].as_slice(), 0, 24)
}

fn parts(a: &[u8], p: usize, m: usize, c: &[u8], q: usize, n: usize) -> (b: Vec<u8>)
    requires
        p + m <= a@.len(),
        q + n <= c@.len(),
    ensures
        b@ == a@.subrange(p as int, p + m) + c@.subrange(q as int, q + n),
        b@.len() == m + n,
{
    let mut b: Vec<u8> = Vec::new();
    let mut i: usize = 0;
    let an: usize = a.len();
    let cn: usize = c.len();
    while i < m
        invariant
            i <= m,
            an == a@.len(),
            p + m <= an,
            b@ == a@.subrange(p as int, p + i),
        decreases m - i,
    {
        b.push(a[p + i]);
        i += 1;
        assert(b@ =~= a@.subrange(p as int, p + i));
    }
    let ghost left = b@;
    let mut j: usize = 0;
    while j < n
        invariant
            j <= n,
            cn == c@.len(),
            q + n <= cn,
            b@ == left + c@.subrange(q as int, q + j),
        decreases n - j,
    {
        b.push(c[q + j]);
        j += 1;
        assert(b@ =~= left + c@.subrange(q as int, q + j));
    }
    b
}

fn long_unsigned(w: &Vec<[u8; 24]>, k: usize) -> (v: u64)
    requires
        k + 1 < w@.len(),
    ensures
        v == bits_value(w@[k as int]@.subrange(16, 24) + w@[k + 1]@.subrange(0, 24)),
        v < 0x1_0000_0000,
{
    let b: Vec<u8> = long_bits(w, k);
    proof {
        lemma2_to64();
        assert(b@.subrange(0, 32) =~= b@);
    }
    ubits(b.as_slice(), 0, 32)
}

fn long_signed(w: &Vec<[u8; 24]>, k: usize) -> (v: i64)
    requires
        k + 1 < w@.len(),
    ensures
        v == signed_value(w@[k as int]@.subrange(16, 24) + w@[k + 1]@.subrange(0, 24)),
{
    let b: Vec<u8> = long_bits(w, k);
    assert(b@.subrange(0, 32) =~= b@);
    sbits(b.as_slice(), 0, 32)
}

/// Ephemeris of the first subframes 1, 2 and 3, when their issue numbers agree
/// and the orbit is plausible.
pub fn parse_ephemeris(subs: &[Subframe]) -> (r: Option<LnavEphemeris>)
    requires
        whole(subs@),
    ensures
        r == ephemeris_of(views(subs@)),
{
    let i1: usize = match find_first(subs, 1) {
        Some(i) => i,
        None => return None,
    };
    let i2: usize = match find_first(subs, 2) {
        Some(i) => i,
        None => return None,
    };
    let i3: usize = match find_first(subs, 3) {
        Some(i) => i,
        None => return None,
    };
    let w1: &Vec<[u8; 24]> = &subs[i1].words;
    let w2: &Vec<[u8; 24]> = &subs[i2].words;
    let w3: &Vec<[u8; 24]> = &subs[i3].words;
    let ghost (v1, v2, v3) = (subs@[i1 as int]@.words, subs@[i2 as int]@.words, subs@[i3 as int]@.words);
    assert(forall|k: int| 0 <= k < 10 ==> #[trigger] v1[k] == w1@[k]@);
    assert(forall|k: int| 0 <= k < 10 ==> #[trigger] v2[k] == w2@[k]@);
    assert(forall|k: int| 0 <= k < 10 ==> #[trigger] v3[k] == w3@[k]@);
    proof {
        lemma2_to64();
    }
    let iodc_bits: Vec<u8> = parts(w1[2].as_slice(), 22, 2, w1[7].as_slice(), 0, 8);
    assert(iodc_bits@.subrange(0, 10) =~= iodc_bits@);
    let iodc: u64 = ubits(iodc_bits.as_slice(), 0, 10);
    let iode: u64 = bu(w2[2].as_slice(), 1, 8);
    let e = LnavEphemeris {
        week: bu(w1[2].as_slice(), 1, 10) as u16,
        iodc: iodc as u16,
        health: bu(w1[2].as_slice(), 17, 6) as u8,
        fit_h: if bu(w2[9].as_slice(), 17, 1) == 0 { Some(4) } else { None },
        tgd: bi(w1[6].as_slice(), 17, 8),
        toc: bu(w1[7].as_slice(), 9, 16),
        af2: bi(w1[8].as_slice(), 1, 8),
        af1: bi(w1[8].as_slice(), 9, 16),
        af0: bi(w1[9].as_slice(), 1, 22),
        iode: iode as u8,
        crs: bi(w2[2].as_slice(), 9, 16),
        delta_n: bi(w2[3].as_slice(), 1, 16),
        m0: long_signed(w2, 3),
        cuc: bi(w2[5].as_slice(), 1, 16),
        e: long_unsigned(w2, 5),
        cus: bi(w2[7].as_slice(), 1, 16),
        sqrt_a: long_unsigned(w2, 7),
        toe: bu(w2[9].as_slice(), 1, 16),
        cic: bi(w3[2].as_slice(), 1, 16),
        omega0: long_signed(w3, 2),
        cis: bi(w3[4].as_slice(), 1, 16),
        i0: long_signed(w3, 4),
        crc: bi(w3[6].as_slice(), 1, 16),
        omega: long_signed(w3, 6),
        omega_dot: bi(w3[8].as_slice(), 1, 24),
        idot: bi(w3[9].as_slice(), 9, 14),
    };
    assert(e == fields(v1, v2, v3));
    let iode3: u64 = bu(w3[9].as_slice(), 1, 8);
    if iode != iode3 || iode != iodc % 256 {
        return None;
    }
    if e.sqrt_a < 5000 * 0x8_0000 || e.sqrt_a >= 5500 * 0x8_0000 || 20 * e.e >= 0x2_0000_0000 {
        return None;
    }
    Some(e)
}

} // verus!
