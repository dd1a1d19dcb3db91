//! GLONASS navigation message: Hamming check of strings, their fields and the
//! immediate ephemeris.
//!
//! A string has 85 bits, numbered from 1 for the last one sent. Bits 1 to 8 are
//! check bits. Bits 1 to 7 hold Hamming checks: bit `p` of the message takes
//! part in the checks that the binary digits of its Hamming number name. Bit 8
//! makes the overall parity even.
use vstd::prelude::*;
use crate::double::{finite, is_finite, is_nan, less, not_a_number, value};
use vstd::arithmetic::power2::{lemma2_to64, lemma_pow2_unfold, pow2};
use crate::bits::{bits_value, is_bits, lemma_value_bound, ubits};

verus! {

/// Time mark that ends every string.
pub const TIME_MARK: [u8; 30] = [
    1, 1, 1, 1, 1, 0, 0, 0, 1, 1, 0, 1, 1, 1, 0, 1, 0, 1, 0, 0, 0, 0, 1, 0, 0, 1, 0, 1, 1, 0,
];

pub const STRING_CHIPS: usize = 200;

pub const STRING_BITS: usize = 85;

/// Outcome of the Hamming check of a string.
#[derive(Debug, Clone, Copy, PartialEq, Eq, Structural)]
pub enum Hamming {
    /// no error
    Clean,
    /// one error, in a check bit; the data are intact
    OkCheckBit,
    /// one error, at this bit number, corrected
    Corrected(usize),
    /// more than one error
    Fail,
}

/// Hamming number of a bit: the check bits 1 to 7 have the powers of two, bit 8
/// has none, and the data bits from 9 on have the other numbers in order.
pub open spec fn column(p: int) -> u8 {
    (if p == 1 { 1int } else if p == 2 { 2 } else if p == 3 { 4 } else if p == 4 { 8 } else if p == 5 { 16 }
    else if p == 6 { 32 } else if p == 7 { 64 } else if p == 8 { 0 } else if p == 9 { 3 } else if p <= 12 { p - 5 }
    else if p <= 19 { p - 4 } else if p <= 34 { p - 3 } else if p <= 65 { p - 2 } else { p - 1 }) as u8
}

/// The bit with the given Hamming number, if there is one.
pub open spec fn place_of(c: int) -> Option<int> {
    if c == 1 { Some(1int) } else if c == 2 { Some(2int) } else if c == 4 { Some(3int) } else if c == 8 { Some(4int) }
    else if c == 16 { Some(5int) } else if c == 32 { Some(6int) } else if c == 64 { Some(7int) }
    else if c == 0 { Some(8int) } else if c == 3 { Some(9int) } else if 5 <= c <= 7 { Some(c + 5) }
    else if 9 <= c <= 15 { Some(c + 4) } else if 17 <= c <= 31 { Some(c + 3) } else if 33 <= c <= 63 { Some(c + 2) }
    else if 65 <= c <= 84 { Some(c + 1) } else { None }
}

/// Sum over GF(2) of the Hamming numbers of the set bits up to number `n`.
pub open spec fn checks(bits: Seq<u8>, n: int) -> u8
    decreases n,
{
    if n <= 0 {
        0
    } else if bits[n - 1] == 1 {
        checks(bits, n - 1) ^ column(n)
    } else {
        checks(bits, n - 1)
    }
}

/// Parity of the bits up to number `n`.
pub open spec fn overall(bits: Seq<u8>, n: int) -> u8
    decreases n,
{
    if n <= 0 {
        0
    } else {
        overall(bits, n - 1) ^ bits[n - 1]
    }
}

pub open spec fn power_of_two(c: u8) -> bool {
    c == 1 || c == 2 || c == 4 || c == 8 || c == 16 || c == 32 || c == 64
}

/// What the checks and the overall parity say.
pub open spec fn judgement(c: u8, parity: u8) -> Hamming {
    if c == 0 && parity == 0 {
        Hamming::Clean
    } else if power_of_two(c) && parity == 1 {
        Hamming::OkCheckBit
    } else if parity == 1 && place_of(c as int) is Some {
        Hamming::Corrected(place_of(c as int)->0 as usize)
    } else {
        Hamming::Fail
    }
}

/// What the check of a string says.
pub open spec fn verdict(bits: Seq<u8>) -> Hamming {
    judgement(checks(bits, 85), overall(bits, 85))
}

pub open spec fn flip(bits: Seq<u8>, p: int) -> Seq<u8> {
    bits.update(p - 1, (1 - bits[p - 1]) as u8)
}

/// A string after correction.
pub open spec fn repaired(bits: Seq<u8>) -> Seq<u8> {
    match verdict(bits) {
        Hamming::Corrected(p) => flip(bits, p as int),
        _ => bits,
    }
}

/// Whether a string passes all its checks.
pub open spec fn sound(bits: Seq<u8>) -> bool {
    checks(bits, 85) == 0 && overall(bits, 85) == 0
}

proof fn lemma_xor(a: u8, b: u8, c: u8)
    by (bit_vector)
    ensures
        (a ^ b) ^ c == (a ^ c) ^ b,
        (a ^ b) ^ b == a,
        a ^ 0 == a,
        0 ^ a == a,
        a ^ b == 0 ==> a == b,
        a <= 1 && b <= 1 ==> a ^ b <= 1,
        a <= 1 && b <= 1 && c <= 1 && c != b ==> (a ^ b) ^ 1 == a ^ c,
        a <= 127 && b <= 127 ==> a ^ b <= 127,
        a <= 1 ==> (a ^ 1) == 1 - a,
        0u8 ^ 1 == 1,
        1u8 ^ 1 == 0,
{
}

proof fn lemma_column(p: int, q: int)
    requires
        1 <= p <= 85,
        1 <= q <= 85,
    ensures
        place_of(column(p) as int) == Some(p),
        column(p) <= 84,
        column(p) == column(q) ==> p == q,
        power_of_two(column(p)) <==> p <= 7,
{
}

proof fn lemma_flip_checks(bits: Seq<u8>, p: int, n: int)
    requires
        bits.len() == 85,
        is_bits(bits),
        1 <= p <= 85,
        0 <= n <= 85,
    ensures
        checks(flip(bits, p), n) == (if n < p { checks(bits, n) } else { checks(bits, n) ^ column(p) }),
        overall(flip(bits, p), n) == (if n < p { overall(bits, n) } else { overall(bits, n) ^ 1 }),
        overall(bits, n) <= 1,
        checks(bits, n) <= 127,
    decreases n,
{
    if n > 0 {
        lemma_flip_checks(bits, p, n - 1);
        let c = checks(bits, n - 1);
        let o = overall(bits, n - 1);
        lemma_column(n, n);
        lemma_xor(c, column(n), column(p));
        lemma_xor(c, column(p), column(n));
        lemma_xor(o, bits[n - 1], 1);
        lemma_xor(o, bits[n - 1], (1 - bits[n - 1]) as u8);
        lemma_xor(c, column(n), column(n));
        assert(bits[n - 1] <= 1);
    }
}

/// Any single error in a sound string is found: one in a check bit is told as
/// such and leaves the data intact, any other is corrected.
pub proof fn law_single_errors_are_found(bits: Seq<u8>, p: int)
    requires
        bits.len() == 85,
        is_bits(bits),
        sound(bits),
        1 <= p <= 85,
    ensures
        p <= 7 ==> verdict(flip(bits, p)) == Hamming::OkCheckBit,
        p >= 8 ==> verdict(flip(bits, p)) == Hamming::Corrected(p as usize) && repaired(flip(bits, p)) == bits,
        repaired(flip(bits, p)).skip(8) == bits.skip(8),
{
    lemma_flip_checks(bits, p, 85);
    lemma_column(p, p);
    lemma_xor(0, column(p), 0);
    lemma_xor(column(p), 0, 0);
    assert(bits[p - 1] <= 1);
    if p >= 8 {
        assert(flip(flip(bits, p), p) =~= bits);
    } else {
        assert(repaired(flip(bits, p)).skip(8) =~= bits.skip(8));
    }
}

/// Any two errors in a sound string are detected, and nothing is changed.
pub proof fn law_double_errors_are_detected(bits: Seq<u8>, p: int, q: int)
    requires
        bits.len() == 85,
        is_bits(bits),
        sound(bits),
        1 <= p <= 85,
        1 <= q <= 85,
        p != q,
    ensures
        verdict(flip(flip(bits, p), q)) == Hamming::Fail,
        repaired(flip(flip(bits, p), q)) == flip(flip(bits, p), q),
{
    let once = flip(bits, p);
    assert(is_bits(once));
    lemma_flip_checks(bits, p, 85);
    lemma_flip_checks(once, q, 85);
    lemma_column(p, q);
    lemma_xor(0, column(p), 0);
    lemma_xor(column(p), column(q), 0);
}

/// The sum over GF(2) of two strings, bit by bit.
pub open spec fn bit_sum(a: Seq<u8>, b: Seq<u8>) -> Seq<u8> {
    Seq::new(a.len(), |i: int| a[i] ^ b[i])
}

proof fn lemma_sum_checks(a: Seq<u8>, b: Seq<u8>, n: int)
    requires
        a.len() == b.len(),
        is_bits(a),
        is_bits(b),
        0 <= n <= a.len(),
    ensures
        checks(bit_sum(a, b), n) == checks(a, n) ^ checks(b, n),
        overall(bit_sum(a, b), n) == overall(a, n) ^ overall(b, n),
    decreases n,
{
    if n > 0 {
        lemma_sum_checks(a, b, n - 1);
        let (x, y) = (a[n - 1], b[n - 1]);
        lemma_sum_step(checks(a, n - 1), checks(b, n - 1), column(n));
        lemma_sum_bits(overall(a, n - 1), overall(b, n - 1), x, y);
        assert(x <= 1 && y <= 1);
    } else {
        lemma_xor(0, 0, 0);
    }
}

proof fn lemma_sum_step(a: u8, b: u8, c: u8)
    by (bit_vector)
    ensures
        (a ^ c) ^ (b ^ c) == a ^ b,
        (a ^ c) ^ b == (a ^ b) ^ c,
        a ^ (b ^ c) == (a ^ b) ^ c,
{
}

proof fn lemma_sum_bits(a: u8, b: u8, x: u8, y: u8)
    by (bit_vector)
    ensures
        (a ^ x) ^ (b ^ y) == (a ^ b) ^ (x ^ y),
        x <= 1 && y <= 1 ==> (x ^ y == 1 <==> x != y),
{
}

/// The checks of a sum of two strings are the sums of their checks, so the sum of
/// sound strings is sound.
pub proof fn law_checks_of_a_sum(a: Seq<u8>, b: Seq<u8>)
    requires
        a.len() == 85,
        b.len() == 85,
        is_bits(a),
        is_bits(b),
    ensures
        checks(bit_sum(a, b), 85) == checks(a, 85) ^ checks(b, 85),
        overall(bit_sum(a, b), 85) == overall(a, 85) ^ overall(b, 85),
        sound(a) && sound(b) ==> sound(bit_sum(a, b)),
{
    lemma_sum_checks(a, b, 85);
    lemma_xor(0, 0, 0);
}

/// Whether data bit `p` takes part in check `i`.
pub open spec fn in_check(i: int, p: int) -> bool {
    9 <= p <= 85 && (if i == 0 { column(p) % 2 } else if i == 1 { (column(p) / 2) % 2 } else if i == 2 {
        (column(p) / 4) % 2
    } else if i == 3 { (column(p) / 8) % 2 } else if i == 4 { (column(p) / 16) % 2 } else if i == 5 {
        (column(p) / 32) % 2
    } else { (column(p) / 64) % 2 }) == 1
}

fn column_of(p: usize) -> (c: u8)
    requires
        1 <= p <= 85,
    ensures
        c == column(p as int),
{
    if p == 1 { 1 } else if p == 2 { 2 } else if p == 3 { 4 } else if p == 4 { 8 } else if p == 5 { 16 }
    else if p == 6 { 32 } else if p == 7 { 64 } else if p == 8 { 0 } else if p == 9 { 3 }
    else if p <= 12 { (p - 5) as u8 } else if p <= 19 { (p - 4) as u8 } else if p <= 34 { (p - 3) as u8 }
    else if p <= 65 { (p - 2) as u8 } else { (p - 1) as u8 }
}

fn takes_part(i: usize, p: usize) -> (r: bool)
    requires
        i < 7,
        9 <= p <= 85,
    ensures
        r == in_check(i as int, p as int),
{
    let c: u8 = column_of(p);
    let b: u8 = if i == 0 { c % 2 } else if i == 1 { (c / 2) % 2 } else if i == 2 { (c / 4) % 2 } else if i == 3 {
        (c / 8) % 2
    } else if i == 4 { (c / 16) % 2 } else if i == 5 { (c / 32) % 2 } else { (c / 64) % 2 };
    b == 1
}

/// The data bits, in order, from 9 up to `n` that take part in check `i`.
pub open spec fn check_members(i: int, n: int) -> Seq<usize>
    decreases n,
{
    if n < 9 {
        Seq::empty()
    } else if in_check(i, n) {
        check_members(i, n - 1).push(n as usize)
    } else {
        check_members(i, n - 1)
    }
}

/// The numbers of the data bits that take part in each of the seven checks.
pub fn checksum_sets() -> (sets: Vec<Vec<usize>>)
    ensures
        sets@.len() == 7,
        forall|i: int| 0 <= i < 7 ==> (#[trigger] sets@[i])@ == check_members(i, 85),
{
    let mut sets: Vec<Vec<usize>> = Vec::new();
    let mut i: usize = 0;
    while i < 7
        invariant
            i <= 7,
            sets@.len() == i,
            forall|k: int| 0 <= k < i ==> (#[trigger] sets@[k])@ == check_members(k, 85),
        decreases 7 - i,
    {
        let mut v: Vec<usize> = Vec::new();
        let mut p: usize = 9;
        while p <= 85
            invariant
                i < 7,
                9 <= p <= 86,
                v@ == check_members(i as int, p - 1),
            decreases 86 - p,
        {
            if takes_part(i, p) {
                v.push(p);
            }
            p += 1;
        }
        sets.push(v);
        i += 1;
    }
    sets
}

/// The seven checks of a string as the digits of a number, and its parity.
pub fn hamming_checksums(bits: &[u8; 85]) -> (r: (u8, u8))
    requires
        is_bits(bits@),
    ensures
        r.0 == checks(bits@, 85),
        r.1 == overall(bits@, 85),
        r.0 <= 127,
        r.1 <= 1,
{
    let mut c: u8 = 0;
    let mut s: u8 = 0;
    let mut p: usize = 0;
    while p < 85
        invariant
            is_bits(bits@),
            p <= 85,
            c == checks(bits@, p as int),
            s == overall(bits@, p as int),
        decreases 85 - p,
    {
        if bits[p] == 1 {
            c = c ^ column_of(p + 1);
        }
        s = s ^ bits[p];
        p += 1;
    }
    proof {
        lemma_flip_checks(bits@, 1, 85);
    }
    (c, s)
}

fn find_place(c: u8) -> (r: Option<usize>)
    requires
        c <= 127,
    ensures
        r is Some <==> place_of(c as int) is Some,
        r matches Some(p) ==> p == place_of(c as int)->0 && 1 <= p <= 85,
{
    let mut p: usize = 1;
    while p <= 85
        invariant
            1 <= p <= 86,
            c <= 127,
            forall|q: int| 1 <= q < p ==> #[trigger] column(q) != c,
        decreases 86 - p,
    {
        if column_of(p) == c {
            proof {
                lemma_column(p as int, p as int);
            }
            return Some(p);
        }
        p += 1;
    }
    proof {
        if place_of(c as int) is Some {
            let q = place_of(c as int)->0;
            assert(column(q) == c);
        }
    }
    None
}

/// Checks a string and corrects a single error in it.
pub fn hamming_verify(bits: &mut [u8; 85]) -> (r: Hamming)
    requires
        is_bits(old(bits)@),
    ensures
        r == verdict(old(bits)@),
        final(bits)@ == repaired(old(bits)@),
        is_bits(final(bits)@),
{
    let sums = hamming_checksums(&*bits);
    let c: u8 = sums.0;
    let csum: u8 = sums.1;
    if c == 0 && csum == 0 {
        return Hamming::Clean;
    }
    if csum == 1 && (c == 1 || c == 2 || c == 4 || c == 8 || c == 16 || c == 32 || c == 64) {
        return Hamming::OkCheckBit;
    }
    if csum == 1 {
        match find_place(c) {
            Some(p) => {
                let ghost before = bits@;
                assert(before[p - 1] <= 1);
                let b: u8 = bits[p - 1];
                bits[p - 1] = 1 - b;
                assert(bits@ =~= flip(before, p as int));
                return Hamming::Corrected(p);
            },
            None => {},
        }
    }
    Hamming::Fail
}

// ---------------------------------------------------------------- fields
/// Bits `hi` down to `lo`, the highest first.
pub open spec fn field(b: Seq<u8>, hi: int, lo: int) -> Seq<u8> {
    Seq::new((hi - lo + 1) as nat, |k: int| b[hi - 1 - k])
}

pub open spec fn unsigned(b: Seq<u8>, hi: int, lo: int) -> nat {
    bits_value(field(b, hi, lo))
}

/// A field whose highest bit is the sign and whose other bits are the magnitude.
pub open spec fn sign_magnitude(b: Seq<u8>, hi: int, lo: int) -> int {
    let mag = bits_value(field(b, hi - 1, lo)) as int;
    if b[hi - 1] % 2 == 1 {
        -mag
    } else {
        mag
    }
}

/// Unsigned field.
pub fn bu(b: &[u8; 85], hi: usize, lo: usize) -> (v: u64)
    requires
        1 <= lo <= hi + 1,
        hi <= 85,
        hi - lo < 63,
    ensures
        v == unsigned(b@, hi as int, lo as int),
        v < pow2((hi - lo + 1) as nat),
{
    let n: usize = hi + 1 - lo;
    let ghost all = field(b@, hi as int, lo as int);
    let mut f: Vec<u8> = Vec::new();
    let mut k: usize = 0;
    while k < n
        invariant
            1 <= lo <= hi + 1,
            hi <= 85,
            n == hi + 1 - lo,
            k <= n,
            all == field(b@, hi as int, lo as int),
            f@ == all.take(k as int),
        decreases n - k,
    {
        f.push(b[hi - 1 - k]);
        assert(f@ =~= all.take(k + 1));
        k += 1;
    }
    assert(f@ =~= all);
    assert(f@.subrange(0, n as int) =~= f@);
    ubits(f.as_slice(), 0, n)
}

/// Sign-magnitude field.
pub fn sm(b: &[u8; 85], hi: usize, lo: usize) -> (v: i64)
    requires
        1 <= lo < hi <= 85,
        hi - lo < 62,
    ensures
        v == sign_magnitude(b@, hi as int, lo as int),
{
    let mag: u64 = bu(b, hi - 1, lo);
    proof {
        lemma2_to64();
        vstd::arithmetic::power2::lemma2_to64_rest();
        if hi - lo < 62 {
            vstd::arithmetic::power2::lemma_pow2_strictly_increases((hi - lo) as nat, 63);
        }
    }
    if b[hi - 1] % 2 == 1 {
        -(mag as i64)
    } else {
        mag as i64
    }
}

/// The fields of a string in the units of the message: coordinates of 2^-11 km,
/// velocities of 2^-20 km/s, accelerations of 2^-30 km/s^2, the relative
/// frequency offset of 2^-40, clock terms of 2^-30 s, the system time correction
/// of 2^-31 s.
#[derive(Debug, Clone, Copy, PartialEq, Eq)]
pub enum StringData {
    S1 { p1: u8, tk_s: u32, x: i64, vx: i64, ax: i64 },
    S2 { bn: u8, p2: u8, tb_min: u16, y: i64, vy: i64, ay: i64 },
    S3 { p3: u8, gamma_n: i64, p: u8, ln: u8, z: i64, vz: i64, az: i64 },
    S4 { tau_n: i64, dtau_n: i64, en: u8, p4: u8, ft: u8, nt: u16, slot: u8, m_type: u8 },
    S5 { na: u16, tau_c: i64, n4: u8, tau_gps: i64, ln: u8 },
    Almanac,
}

/// A string that passed its check.
#[derive(Debug, Clone, Copy)]
pub struct GloString {
    pub str_num: u8,
    pub bits: [u8; 85],
    pub hamming: Hamming,
    pub data: StringData,
}

/// The fields of a string after correction; string number 0 has none.
pub open spec fn string_fields(b: Seq<u8>) -> Option<StringData> {
    let n = unsigned(b, 84, 81);
    if n == 1 {
        Some(
            StringData::S1 {
                p1: unsigned(b, 78, 77) as u8,
                tk_s: (3600 * unsigned(b, 76, 72) + 60 * unsigned(b, 71, 66) + 30 * unsigned(b, 65, 65)) as u32,
                x: sign_magnitude(b, 35, 9) as i64,
                vx: sign_magnitude(b, 64, 41) as i64,
                ax: sign_magnitude(b, 40, 36) as i64,
            },
        )
    } else if n == 2 {
        Some(
            StringData::S2 {
                bn: unsigned(b, 80, 78) as u8,
                p2: unsigned(b, 77, 77) as u8,
                tb_min: (15 * unsigned(b, 76, 70)) as u16,
                y: sign_magnitude(b, 35, 9) as i64,
                vy: sign_magnitude(b, 64, 41) as i64,
                ay: sign_magnitude(b, 40, 36) as i64,
            },
        )
    } else if n == 3 {
        Some(
            StringData::S3 {
                p3: unsigned(b, 80, 80) as u8,
                gamma_n: sign_magnitude(b, 79, 69) as i64,
                p: unsigned(b, 67, 66) as u8,
                ln: unsigned(b, 65, 65) as u8,
                z: sign_magnitude(b, 35, 9) as i64,
                vz: sign_magnitude(b, 64, 41) as i64,
                az: sign_magnitude(b, 40, 36) as i64,
            },
        )
    } else if n == 4 {
        Some(
            StringData::S4 {
                tau_n: sign_magnitude(b, 80, 59) as i64,
                dtau_n: sign_magnitude(b, 58, 54) as i64,
                en: unsigned(b, 53, 49) as u8,
                p4: unsigned(b, 34, 34) as u8,
                ft: unsigned(b, 33, 30) as u8,
                nt: unsigned(b, 26, 16) as u16,
                slot: unsigned(b, 15, 11) as u8,
                m_type: unsigned(b, 10, 9) as u8,
            },
        )
    } else if n == 5 {
        Some(
            StringData::S5 {
                na: unsigned(b, 80, 70) as u16,
                tau_c: sign_magnitude(b, 69, 38) as i64,
                n4: unsigned(b, 36, 32) as u8,
                tau_gps: sign_magnitude(b, 31, 10) as i64,
                ln: unsigned(b, 9, 9) as u8,
            },
        )
    } else if 6 <= n <= 15 {
        Some(StringData::Almanac)
    } else {
        None
    }
}

/// Checks a string and reads its fields. There is none when the check fails or
/// the string number is zero.
pub fn parse_string(bits: [u8; 85]) -> (r: Option<GloString>)
    requires
        is_bits(bits@),
    ensures
        r is Some <==> verdict(bits@) != Hamming::Fail && string_fields(repaired(bits@)) is Some,
        r matches Some(s) ==> s.str_num as nat == unsigned(repaired(bits@), 84, 81) && s.bits@ == repaired(bits@)
            && s.hamming == verdict(bits@) && s.data == string_fields(repaired(bits@))->0,
{
    let mut w: [u8; 85] = bits;
    let hamming: Hamming = hamming_verify(&mut w);
    if hamming == Hamming::Fail {
        return None;
    }
    proof {
        lemma2_to64();
    }
    let b: &[u8; 85] = &w;
    let str_num: u64 = bu(b, 84, 81);
    let data: StringData = if str_num == 1 {
        StringData::S1 {
            p1: bu(b, 78, 77) as u8,
            tk_s: 3600 * (bu(b, 76, 72) as u32) + 60 * (bu(b, 71, 66) as u32) + 30 * (bu(b, 65, 65) as u32),
            x: sm(b, 35, 9),
            vx: sm(b, 64, 41),
            ax: sm(b, 40, 36),
        }
    } else if str_num == 2 {
        StringData::S2 {
            bn: bu(b, 80, 78) as u8,
            p2: bu(b, 77, 77) as u8,
            tb_min: 15 * (bu(b, 76, 70) as u16),
            y: sm(b, 35, 9),
            vy: sm(b, 64, 41),
            ay: sm(b, 40, 36),
        }
    } else if str_num == 3 {
        StringData::S3 {
            p3: bu(b, 80, 80) as u8,
            gamma_n: sm(b, 79, 69),
            p: bu(b, 67, 66) as u8,
            ln: bu(b, 65, 65) as u8,
            z: sm(b, 35, 9),
            vz: sm(b, 64, 41),
            az: sm(b, 40, 36),
        }
    } else if str_num == 4 {
        StringData::S4 {
            tau_n: sm(b, 80, 59),
            dtau_n: sm(b, 58, 54),
            en: bu(b, 53, 49) as u8,
            p4: bu(b, 34, 34) as u8,
            ft: bu(b, 33, 30) as u8,
            nt: bu(b, 26, 16) as u16,
            slot: bu(b, 15, 11) as u8,
            m_type: bu(b, 10, 9) as u8,
        }
    } else if str_num == 5 {
        StringData::S5 {
            na: bu(b, 80, 70) as u16,
            tau_c: sm(b, 69, 38),
            n4: bu(b, 36, 32) as u8,
            tau_gps: sm(b, 31, 10),
            ln: bu(b, 9, 9) as u8,
        }
    } else if str_num >= 6 {
        StringData::Almanac
    } else {
        return None;
    };
    Some(GloString { str_num: str_num as u8, bits: w, hamming, data })
}

// ------------------------------------------------------------- ephemeris
/// The immediate ephemeris of one satellite, in the units of its strings.
#[derive(Debug, Clone, Copy, PartialEq, Eq)]
pub struct GloEphemeris {
    pub slot: u8,
    pub nt: u16,
    pub tb_min: u16,
    pub tk_s: u32,
    pub x: i64,
    pub y: i64,
    pub z: i64,
    pub vx: i64,
    pub vy: i64,
    pub vz: i64,
    pub ax: i64,
    pub ay: i64,
    pub az: i64,
    pub gamma_n: i64,
    pub tau_n: i64,
    pub en: u8,
    pub ft: u8,
}

pub open spec fn squares(a: i64, b: i64, c: i64) -> int {
    a * a + b * b + c * c
}

impl GloEphemeris {
    /// Square of the distance from the geocentre, in units of 2^-22 km^2.
    pub open spec fn radius_squared(self) -> int {
        squares(self.x, self.y, self.z)
    }

    /// Square of the speed, in units of 2^-40 km^2/s^2.
    pub open spec fn speed_squared(self) -> int {
        squares(self.vx, self.vy, self.vz)
    }

    /// Whether the satellite is 23000 up to 28000 km from the geocentre, at a
    /// speed of 3 up to 5 km/s.
    pub open spec fn plausible(self) -> bool {
        23000 * 2048 * (23000 * 2048) <= self.radius_squared() < 28000 * 2048 * (28000 * 2048) && 3 * 1048576 * (3
            * 1048576) <= self.speed_squared() < 5 * 1048576 * (5 * 1048576)
    }
}

/// The last string of each of the numbers 1 to 4.
pub struct EphCollector {
    pub s1: Option<GloString>,
    pub s2: Option<GloString>,
    pub s3: Option<GloString>,
    pub s4: Option<GloString>,
}

impl Default for EphCollector {
    fn default() -> (c: Self)
        ensures
            c.s1 is None && c.s2 is None && c.s3 is None && c.s4 is None,
    {
        EphCollector { s1: None, s2: None, s3: None, s4: None }
    }
}

/// The ephemeris of four strings, were they of the kinds 1 to 4.
pub open spec fn joined(d1: StringData, d2: StringData, d3: StringData, d4: StringData) -> Option<GloEphemeris> {
    match (d1, d2, d3, d4) {
        (
            StringData::S1 { tk_s, x, vx, ax, .. },
            StringData::S2 { tb_min, y, vy, ay, .. },
            StringData::S3 { gamma_n, ln, z, vz, az, .. },
            StringData::S4 { tau_n, en, ft, nt, slot, .. },
        ) => {
            let e = GloEphemeris {
                slot,
                nt,
                tb_min,
                tk_s,
                x,
                y,
                z,
                vx,
                vy,
                vz,
                ax,
                ay,
                az,
                gamma_n,
                tau_n,
                en,
                ft,
            };
            if e.plausible() && ln == 0 {
                Some(e)
            } else {
                None
            }
        },
        _ => None,
    }
}

/// Bound on the magnitude of a coordinate or velocity field.
pub open spec fn in_range(v: i64) -> bool {
    -0x800_0000 < v < 0x800_0000
}

pub open spec fn string_in_range(d: StringData) -> bool {
    match d {
        StringData::S1 { x, vx, .. } => in_range(x) && in_range(vx),
        StringData::S2 { y, vy, .. } => in_range(y) && in_range(vy),
        StringData::S3 { z, vz, .. } => in_range(z) && in_range(vz),
        _ => true,
    }
}

impl EphCollector {
    /// Whether what is held came from strings.
    pub open spec fn wf(self) -> bool {
        &&& self.s1 matches Some(s) ==> string_in_range(s.data)
        &&& self.s2 matches Some(s) ==> string_in_range(s.data)
        &&& self.s3 matches Some(s) ==> string_in_range(s.data)
        &&& self.s4 matches Some(s) ==> string_in_range(s.data)
    }

    /// Takes a string in; it replaces an earlier one of its number.
    pub fn push(&mut self, s: &GloString)
        requires
            old(self).wf(),
            string_in_range(s.data),
        ensures
            final(self).wf(),
            final(self).s1 == (if s.str_num == 1 { Some(*s) } else { old(self).s1 }),
            final(self).s2 == (if s.str_num == 2 { Some(*s) } else { old(self).s2 }),
            final(self).s3 == (if s.str_num == 3 { Some(*s) } else { old(self).s3 }),
            final(self).s4 == (if s.str_num == 4 { Some(*s) } else { old(self).s4 }),
    {
        if s.str_num == 1 {
            self.s1 = Some(*s);
        } else if s.str_num == 2 {
            self.s2 = Some(*s);
        } else if s.str_num == 3 {
            self.s3 = Some(*s);
        } else if s.str_num == 4 {
            self.s4 = Some(*s);
        }
    }

    /// The ephemeris, once all four strings are there, the orbit is plausible
    /// and the satellite is healthy.
    pub fn ephemeris(&self) -> (r: Option<GloEphemeris>)
        requires
            self.wf(),
        ensures
            r == (match (self.s1, self.s2, self.s3, self.s4) {
                (Some(a), Some(b), Some(c), Some(d)) => joined(a.data, b.data, c.data, d.data),
                _ => None,
            }),
    {
        match (&self.s1, &self.s2, &self.s3, &self.s4) {
            (Some(a), Some(b), Some(c), Some(d)) => join(&a.data, &b.data, &c.data, &d.data),
            _ => None,
        }
    }
}

fn sum_of_squares(a: i64, b: i64, c: i64) -> (s: u64)
    requires
        in_range(a),
        in_range(b),
        in_range(c),
    ensures
        s == squares(a, b, c),
{
    let x: u64 = if a < 0 { (-a) as u64 } else { a as u64 };
    let y: u64 = if b < 0 { (-b) as u64 } else { b as u64 };
    let z: u64 = if c < 0 { (-c) as u64 } else { c as u64 };
    proof {
        lemma_square(a as int, x as int);
        lemma_square(b as int, y as int);
        lemma_square(c as int, z as int);
    }
    x * x + y * y + z * z
}

proof fn lemma_square(a: int, x: int)
    requires
        x == a || x == -a,
        -0x800_0000 < a < 0x800_0000,
    ensures
        x * x == a * a,
        0 <= x * x < 0x40_0000_0000_0000,
{
    assert(x * x == a * a) by (nonlinear_arith)
        requires
            x == a || x == -a,
    ;
    assert(0 <= x * x < 0x40_0000_0000_0000) by (nonlinear_arith)
        requires
            -0x800_0000 < x < 0x800_0000,
    ;
}

proof fn lemma_limits()
    by (nonlinear_arith)
    ensures
        23000 * 2048 * (23000 * 2048) == 2_218_786_816_000_000int,
        28000 * 2048 * (28000 * 2048) == 3_288_334_336_000_000int,
        3 * 1048576 * (3 * 1048576) == 9_895_604_649_984int,
        5 * 1048576 * (5 * 1048576) == 27_487_790_694_400int,
{
}

fn join(d1: &StringData, d2: &StringData, d3: &StringData, d4: &StringData) -> (r: Option<GloEphemeris>)
    requires
        string_in_range(*d1),
        string_in_range(*d2),
        string_in_range(*d3),
    ensures
        r == joined(*d1, *d2, *d3, *d4),
{
    match (*d1, *d2, *d3, *d4) {
        (
            StringData::S1 { tk_s, x, vx, ax, .. },
            StringData::S2 { tb_min, y, vy, ay, .. },
            StringData::S3 { gamma_n, ln, z, vz, az, .. },
            StringData::S4 { tau_n, en, ft, nt, slot, .. },
        ) => {
            let r2: u64 = sum_of_squares(x, y, z);
            let v2: u64 = sum_of_squares(vx, vy, vz);
            proof {
                lemma_limits();
            }
            if r2 < 2_218_786_816_000_000 || r2 >= 3_288_334_336_000_000 || v2 < 9_895_604_649_984 || v2
                >= 27_487_790_694_400 || ln != 0 {
                return None;
            }
            Some(
                GloEphemeris {
                    slot,
                    nt,
                    tb_min,
                    tk_s,
                    x,
                    y,
                    z,
                    vx,
                    vy,
                    vz,
                    ax,
                    ay,
                    az,
                    gamma_n,
                    tau_n,
                    en,
                    ft,
                },
            )
        },
        _ => None,
    }
}

/// The checks of a bit are the bits of a number: for check bit `i` that number is a power of
/// two, for bit 8, the parity, none; from bit 9 on the numbers count up from 3 without the
/// powers of two.
pub proof fn law_columns_count_up(p: int)
    ensures
        1 <= p <= 7 ==> column(p) == pow2((p - 1) as nat),
        column(8) == 0,
        column(9) == 3,
        9 <= p < 85 && !power_of_two((column(p) + 1) as u8) ==> column(p + 1) == column(p) + 1,
        9 <= p < 85 && power_of_two((column(p) + 1) as u8) ==> column(p + 1) == column(p) + 2,
{
    lemma2_to64();
}

/// The value of a run of bits whose first says that it is negative and whose others are
/// its distance from zero.
pub open spec fn signed_magnitude(s: Seq<u8>) -> int {
    if s[0] == 1 {
        -(bits_value(s.skip(1)) as int)
    } else {
        bits_value(s.skip(1)) as int
    }
}

/// Where the fields of string 1 stand: they follow one another in this order and of
/// these widths, from bit 85 down to bit 1.
pub proof fn law_places_in_string1(
    b: Seq<u8>,
    idle: Seq<u8>,
    number: Seq<u8>,
    gap: Seq<u8>,
    p1: Seq<u8>,
    hours: Seq<u8>,
    minutes: Seq<u8>,
    half: Seq<u8>,
    vx: Seq<u8>,
    ax: Seq<u8>,
    x: Seq<u8>,
    check: Seq<u8>,
)
    requires
        b.len() == 85,
        is_bits(b),
        idle.len() == 1,
        number.len() == 4,
        gap.len() == 2,
        p1.len() == 2,
        hours.len() == 5,
        minutes.len() == 6,
        half.len() == 1,
        vx.len() == 24,
        ax.len() == 5,
        x.len() == 27,
        check.len() == 8,
        b.reverse() == idle + number + gap + p1 + hours + minutes + half + vx + ax + x + check,
        bits_value(number) == 1,
    ensures
        string_fields(b) matches Some(StringData::S1 { p1: got_p1, vx: got_vx, ax: got_ax, x: got_x, tk_s: got_tk_s }) && {
            &&& got_p1 == bits_value(p1)
            &&& got_vx == signed_magnitude(vx)
            &&& got_ax == signed_magnitude(ax)
            &&& got_x == signed_magnitude(x)
            &&& got_tk_s == 3600 * bits_value(hours) + 60 * bits_value(minutes) + 30 * bits_value(half)
        },
{
    lemma2_to64();
    assert(b.reverse().subrange(1, 5) =~= number);
    lemma_string_part(b, number, 84, 81);
    lemma_value_bound(number);
    assert(b.reverse().subrange(7, 9) =~= p1);
    lemma_string_part(b, p1, 78, 77);
    lemma_value_bound(p1);
    assert(b.reverse().subrange(9, 14) =~= hours);
    lemma_string_part(b, hours, 76, 72);
    lemma_value_bound(hours);
    assert(b.reverse().subrange(14, 20) =~= minutes);
    lemma_string_part(b, minutes, 71, 66);
    lemma_value_bound(minutes);
    assert(b.reverse().subrange(20, 21) =~= half);
    lemma_string_part(b, half, 65, 65);
    lemma_value_bound(half);
    assert(b.reverse().subrange(21, 45) =~= vx);
    lemma_string_part(b, vx, 64, 41);
    lemma_value_bound(vx.skip(1));
    assert(b.reverse().subrange(45, 50) =~= ax);
    lemma_string_part(b, ax, 40, 36);
    lemma_value_bound(ax.skip(1));
    assert(b.reverse().subrange(50, 77) =~= x);
    lemma_string_part(b, x, 35, 9);
    lemma_value_bound(x.skip(1));
}

/// Where the fields of string 2 stand: they follow one another in this order and of
/// these widths, from bit 85 down to bit 1.
pub proof fn law_places_in_string2(
    b: Seq<u8>,
    idle: Seq<u8>,
    number: Seq<u8>,
    bn: Seq<u8>,
    p2: Seq<u8>,
    tb: Seq<u8>,
    gap: Seq<u8>,
    vy: Seq<u8>,
    ay: Seq<u8>,
    y: Seq<u8>,
    check: Seq<u8>,
)
    requires
        b.len() == 85,
        is_bits(b),
        idle.len() == 1,
        number.len() == 4,
        bn.len() == 3,
        p2.len() == 1,
        tb.len() == 7,
        gap.len() == 5,
        vy.len() == 24,
        ay.len() == 5,
        y.len() == 27,
        check.len() == 8,
        b.reverse() == idle + number + bn + p2 + tb + gap + vy + ay + y + check,
        bits_value(number) == 2,
    ensures
        string_fields(b) matches Some(StringData::S2 { bn: got_bn, p2: got_p2, vy: got_vy, ay: got_ay, y: got_y, tb_min: got_tb_min }) && {
            &&& got_bn == bits_value(bn)
            &&& got_p2 == bits_value(p2)
            &&& got_vy == signed_magnitude(vy)
            &&& got_ay == signed_magnitude(ay)
            &&& got_y == signed_magnitude(y)
            &&& got_tb_min == 15 * bits_value(tb)
        },
{
    lemma2_to64();
    assert(b.reverse().subrange(1, 5) =~= number);
    lemma_string_part(b, number, 84, 81);
    lemma_value_bound(number);
    assert(b.reverse().subrange(5, 8) =~= bn);
    lemma_string_part(b, bn, 80, 78);
    lemma_value_bound(bn);
    assert(b.reverse().subrange(8, 9) =~= p2);
    lemma_string_part(b, p2, 77, 77);
    lemma_value_bound(p2);
    assert(b.reverse().subrange(9, 16) =~= tb);
    lemma_string_part(b, tb, 76, 70);
    lemma_value_bound(tb);
    assert(b.reverse().subrange(21, 45) =~= vy);
    lemma_string_part(b, vy, 64, 41);
    lemma_value_bound(vy.skip(1));
    assert(b.reverse().subrange(45, 50) =~= ay);
    lemma_string_part(b, ay, 40, 36);
    lemma_value_bound(ay.skip(1));
    assert(b.reverse().subrange(50, 77) =~= y);
    lemma_string_part(b, y, 35, 9);
    lemma_value_bound(y.skip(1));
}

/// Where the fields of string 3 stand: they follow one another in this order and of
/// these widths, from bit 85 down to bit 1.
pub proof fn law_places_in_string3(
    b: Seq<u8>,
    idle: Seq<u8>,
    number: Seq<u8>,
    p3: Seq<u8>,
    gamma_n: Seq<u8>,
    gap: Seq<u8>,
    p: Seq<u8>,
    ln: Seq<u8>,
    vz: Seq<u8>,
    az: Seq<u8>,
    z: Seq<u8>,
    check: Seq<u8>,
)
    requires
        b.len() == 85,
        is_bits(b),
        idle.len() == 1,
        number.len() == 4,
        p3.len() == 1,
        gamma_n.len() == 11,
        gap.len() == 1,
        p.len() == 2,
        ln.len() == 1,
        vz.len() == 24,
        az.len() == 5,
        z.len() == 27,
        check.len() == 8,
        b.reverse() == idle + number + p3 + gamma_n + gap + p + ln + vz + az + z + check,
        bits_value(number) == 3,
    ensures
        string_fields(b) matches Some(StringData::S3 { p3: got_p3, gamma_n: got_gamma_n, p: got_p, ln: got_ln, vz: got_vz, az: got_az, z: got_z }) && {
            &&& got_p3 == bits_value(p3)
            &&& got_gamma_n == signed_magnitude(gamma_n)
            &&& got_p == bits_value(p)
            &&& got_ln == bits_value(ln)
            &&& got_vz == signed_magnitude(vz)
            &&& got_az == signed_magnitude(az)
            &&& got_z == signed_magnitude(z)
        },
{
    lemma2_to64();
    assert(b.reverse().subrange(1, 5) =~= number);
    lemma_string_part(b, number, 84, 81);
    lemma_value_bound(number);
    assert(b.reverse().subrange(5, 6) =~= p3);
    lemma_string_part(b, p3, 80, 80);
    lemma_value_bound(p3);
    assert(b.reverse().subrange(6, 17) =~= gamma_n);
    lemma_string_part(b, gamma_n, 79, 69);
    lemma_value_bound(gamma_n.skip(1));
    assert(b.reverse().subrange(18, 20) =~= p);
    lemma_string_part(b, p, 67, 66);
    lemma_value_bound(p);
    assert(b.reverse().subrange(20, 21) =~= ln);
    lemma_string_part(b, ln, 65, 65);
    lemma_value_bound(ln);
    assert(b.reverse().subrange(21, 45) =~= vz);
    lemma_string_part(b, vz, 64, 41);
    lemma_value_bound(vz.skip(1));
    assert(b.reverse().subrange(45, 50) =~= az);
    lemma_string_part(b, az, 40, 36);
    lemma_value_bound(az.skip(1));
    assert(b.reverse().subrange(50, 77) =~= z);
    lemma_string_part(b, z, 35, 9);
    lemma_value_bound(z.skip(1));
}

/// Where the fields of string 4 stand: they follow one another in this order and of
/// these widths, from bit 85 down to bit 1.
pub proof fn law_places_in_string4(
    b: Seq<u8>,
    idle: Seq<u8>,
    number: Seq<u8>,
    tau_n: Seq<u8>,
    dtau_n: Seq<u8>,
    en: Seq<u8>,
    gap: Seq<u8>,
    p4: Seq<u8>,
    ft: Seq<u8>,
    gap2: Seq<u8>,
    nt: Seq<u8>,
    slot: Seq<u8>,
    m_type: Seq<u8>,
    check: Seq<u8>,
)
    requires
        b.len() == 85,
        is_bits(b),
        idle.len() == 1,
        number.len() == 4,
        tau_n.len() == 22,
        dtau_n.len() == 5,
        en.len() == 5,
        gap.len() == 14,
        p4.len() == 1,
        ft.len() == 4,
        gap2.len() == 3,
        nt.len() == 11,
        slot.len() == 5,
        m_type.len() == 2,
        check.len() == 8,
        b.reverse() == idle + number + tau_n + dtau_n + en + gap + p4 + ft + gap2 + nt + slot + m_type + check,
        bits_value(number) == 4,
    ensures
        string_fields(b) matches Some(StringData::S4 { tau_n: got_tau_n, dtau_n: got_dtau_n, en: got_en, p4: got_p4, ft: got_ft, nt: got_nt, slot: got_slot, m_type: got_m_type }) && {
            &&& got_tau_n == signed_magnitude(tau_n)
            &&& got_dtau_n == signed_magnitude(dtau_n)
            &&& got_en == bits_value(en)
            &&& got_p4 == bits_value(p4)
            &&& got_ft == bits_value(ft)
            &&& got_nt == bits_value(nt)
            &&& got_slot == bits_value(slot)
            &&& got_m_type == bits_value(m_type)
        },
{
    lemma2_to64();
    assert(b.reverse().subrange(1, 5) =~= number);
    lemma_string_part(b, number, 84, 81);
    lemma_value_bound(number);
    assert(b.reverse().subrange(5, 27) =~= tau_n);
    lemma_string_part(b, tau_n, 80, 59);
    lemma_value_bound(tau_n.skip(1));
    assert(b.reverse().subrange(27, 32) =~= dtau_n);
    lemma_string_part(b, dtau_n, 58, 54);
    lemma_value_bound(dtau_n.skip(1));
    assert(b.reverse().subrange(32, 37) =~= en);
    lemma_string_part(b, en, 53, 49);
    lemma_value_bound(en);
    assert(b.reverse().subrange(51, 52) =~= p4);
    lemma_string_part(b, p4, 34, 34);
    lemma_value_bound(p4);
    assert(b.reverse().subrange(52, 56) =~= ft);
    lemma_string_part(b, ft, 33, 30);
    lemma_value_bound(ft);
    assert(b.reverse().subrange(59, 70) =~= nt);
    lemma_string_part(b, nt, 26, 16);
    lemma_value_bound(nt);
    assert(b.reverse().subrange(70, 75) =~= slot);
    lemma_string_part(b, slot, 15, 11);
    lemma_value_bound(slot);
    assert(b.reverse().subrange(75, 77) =~= m_type);
    lemma_string_part(b, m_type, 10, 9);
    lemma_value_bound(m_type);
}

/// Where the fields of string 5 stand: they follow one another in this order and of
/// these widths, from bit 85 down to bit 1.
pub proof fn law_places_in_string5(
    b: Seq<u8>,
    idle: Seq<u8>,
    number: Seq<u8>,
    na: Seq<u8>,
    tau_c: Seq<u8>,
    gap: Seq<u8>,
    n4: Seq<u8>,
    tau_gps: Seq<u8>,
    ln: Seq<u8>,
    check: Seq<u8>,
)
    requires
        b.len() == 85,
        is_bits(b),
        idle.len() == 1,
        number.len() == 4,
        na.len() == 11,
        tau_c.len() == 32,
        gap.len() == 1,
        n4.len() == 5,
        tau_gps.len() == 22,
        ln.len() == 1,
        check.len() == 8,
        b.reverse() == idle + number + na + tau_c + gap + n4 + tau_gps + ln + check,
        bits_value(number) == 5,
    ensures
        string_fields(b) matches Some(StringData::S5 { na: got_na, tau_c: got_tau_c, n4: got_n4, tau_gps: got_tau_gps, ln: got_ln }) && {
            &&& got_na == bits_value(na)
            &&& got_tau_c == signed_magnitude(tau_c)
            &&& got_n4 == bits_value(n4)
            &&& got_tau_gps == signed_magnitude(tau_gps)
            &&& got_ln == bits_value(ln)
        },
{
    lemma2_to64();
    assert(b.reverse().subrange(1, 5) =~= number);
    lemma_string_part(b, number, 84, 81);
    lemma_value_bound(number);
    assert(b.reverse().subrange(5, 16) =~= na);
    lemma_string_part(b, na, 80, 70);
    lemma_value_bound(na);
    assert(b.reverse().subrange(16, 48) =~= tau_c);
    lemma_string_part(b, tau_c, 69, 38);
    lemma_value_bound(tau_c.skip(1));
    assert(b.reverse().subrange(49, 54) =~= n4);
    lemma_string_part(b, n4, 36, 32);
    lemma_value_bound(n4);
    assert(b.reverse().subrange(54, 76) =~= tau_gps);
    lemma_string_part(b, tau_gps, 31, 10);
    lemma_value_bound(tau_gps.skip(1));
    assert(b.reverse().subrange(76, 77) =~= ln);
    lemma_string_part(b, ln, 9, 9);
    lemma_value_bound(ln);
}

proof fn lemma_string_part(b: Seq<u8>, s: Seq<u8>, hi: int, lo: int)
    requires
        b.len() == 85,
        is_bits(b),
        1 <= lo <= hi <= 85,
        b.reverse().subrange(85 - hi, 86 - lo) == s,
    ensures
        field(b, hi, lo) == s,
        unsigned(b, hi, lo) == bits_value(s),
        lo < hi ==> sign_magnitude(b, hi, lo) == signed_magnitude(s),
        s.len() == hi - lo + 1,
        is_bits(s),
{
    assert forall|k: int| 0 <= k < hi - lo + 1 implies field(b, hi, lo)[k] == s[k] by {
        assert(b.reverse().subrange(85 - hi, 86 - lo)[k] == b.reverse()[85 - hi + k]);
    }
    assert(field(b, hi, lo) =~= s);
    assert(is_bits(s)) by {
        assert forall|k: int| 0 <= k < s.len() implies #[trigger] s[k] <= 1 by {
            assert(s[k] == b[hi - 1 - k]);
        }
    }
    if lo < hi {
        assert(field(b, hi - 1, lo) =~= s.skip(1)) by {
            assert forall|k: int| 0 <= k < hi - lo implies field(b, hi - 1, lo)[k] == s.skip(1)[k] by {
                assert(field(b, hi, lo)[k + 1] == s[k + 1]);
            }
        }
        assert(field(b, hi, lo)[0] == b[hi - 1]);
        assert(b[hi - 1] <= 1);
    }
}

/// The ephemeris has what each of the four strings says: the first the coordinates along
/// x and the time of the frame, the second those along y and the reference time, the third
/// those along z and the rate of the clock, the fourth the rest. It is there if the
/// satellite is healthy, its distance from the geocentre is 23000 up to 28000 km and its
/// speed 3 up to 5 km/s.
pub proof fn law_four_strings_make_an_ephemeris(
    d1: StringData,
    d2: StringData,
    d3: StringData,
    d4: StringData,
)
    requires
        d1 is S1,
        d2 is S2,
        d3 is S3,
        d4 is S4,
    ensures
        joined(d1, d2, d3, d4) is Some <==> d3->S3_ln == 0 && 2_218_786_816_000_000 <= d1->x * d1->x + d2->y * d2->y
            + d3->z * d3->z < 3_288_334_336_000_000 && 9_895_604_649_984 <= d1->vx * d1->vx + d2->vy * d2->vy + d3->vz
            * d3->vz < 27_487_790_694_400,
        joined(d1, d2, d3, d4) matches Some(e) ==> {
            &&& (e.x, e.vx, e.ax, e.tk_s) == (d1->x, d1->vx, d1->ax, d1->tk_s)
            &&& (e.y, e.vy, e.ay, e.tb_min) == (d2->y, d2->vy, d2->ay, d2->tb_min)
            &&& (e.z, e.vz, e.az, e.gamma_n) == (d3->z, d3->vz, d3->az, d3->gamma_n)
            &&& (e.tau_n, e.en, e.ft, e.nt, e.slot) == (d4->tau_n, d4->en, d4->ft, d4->nt, d4->slot)
        },
{
    lemma_limits();
}

/// The fields of any string are in range for the collector.
pub proof fn law_parsed_strings_are_in_range(b: Seq<u8>)
    requires
        b.len() == 85,
    ensures
        string_fields(b) matches Some(d) ==> string_in_range(d),
{
    lemma2_to64();
    lemma_magnitude(b, 35, 9);
    lemma_magnitude(b, 64, 41);
    vstd::arithmetic::power2::lemma_pow2_strictly_increases(26, 27);
    vstd::arithmetic::power2::lemma_pow2_strictly_increases(23, 27);
}

proof fn lemma_magnitude(b: Seq<u8>, hi: int, lo: int)
    requires
        1 <= lo < hi <= 85,
        b.len() == 85,
    ensures
        -pow2((hi - lo) as nat) < sign_magnitude(b, hi, lo) < pow2((hi - lo) as nat),
{
    lemma_value_bound(field(b, hi - 1, lo));
}

// ------------------------------------------------------------ demodulation
/// Bits of a string from the signs of its bi-binary chips: a bit is set where
/// the sign changes from the one before. The sign before the first is that of
/// the last chip of the string before, where it is known.
pub open spec fn relative_bit(signs: Seq<bool>, prev: Option<bool>, i: int) -> u8 {
    if i > 0 {
        if signs[i] == signs[i - 1] { 0 } else { 1 }
    } else {
        match prev {
            Some(p) => if signs[0] == p { 0 } else { 1 },
            None => 0,
        }
    }
}

/// Undoes the relative code of a string. The first bit sent has number 85.
pub fn relative_decode(signs: &[bool; 85], prev: Option<bool>) -> (bits: [u8; 85])
    ensures
        forall|i: int| 0 <= i < 85 ==> #[trigger] bits@[84 - i] == relative_bit(signs@, prev, i),
        is_bits(bits@),
{
    let mut bits: [u8; 85] = [0u8; 85];
    let mut last: Option<bool> = prev;
    let mut i: usize = 0;
    while i < 85
        invariant
            i <= 85,
            last == (if i == 0 { prev } else { Some(signs@[i - 1]) }),
            forall|k: int| 85 - i <= k < 85 ==> #[trigger] bits@[k] == relative_bit(signs@, prev, 84 - k),
            is_bits(bits@),
        decreases 85 - i,
    {
        let s: bool = signs[i];
        let b: u8 = match last {
            Some(p) => if s == p { 0 } else { 1 },
            None => 0,
        };
        bits[84 - i] = b;
        last = Some(s);
        i += 1;
    }
    bits
}

/// Bits of a string from a vote on whether neighbouring chips agree. The first
/// bit sent is idle.
pub fn voted_bits(agree: &[bool; 85]) -> (bits: [u8; 85])
    ensures
        bits@[84] == 0,
        forall|i: int| 1 <= i < 85 ==> #[trigger] bits@[84 - i] == (if agree@[i] { 0u8 } else { 1u8 }),
        is_bits(bits@),
{
    let mut bits: [u8; 85] = [0u8; 85];
    let mut i: usize = 1;
    while i < 85
        invariant
            1 <= i <= 85,
            bits@[84] == 0,
            forall|k: int| 85 - i <= k < 84 ==> #[trigger] bits@[k] == (if agree@[84 - k] { 0u8 } else { 1u8 }),
            is_bits(bits@),
        decreases 85 - i,
    {
        bits[84 - i] = if agree[i] { 0 } else { 1 };
        i += 1;
    }
    bits
}

// ----------------------------------------------------------- phase windows
/// Starts of the windows over `n` outputs: each a quarter of a window after the
/// one before, as long as a whole window is left.
pub fn phase_windows(n: usize, win: usize) -> (v: Vec<usize>)
    requires
        win >= 4,
        n + win <= usize::MAX,
    ensures
        v@.len() == (if n < win { 0 } else { (n - win) / ((win / 4) as int) + 1 }),
        forall|k: int| 0 <= k < v@.len() ==> #[trigger] v@[k] == k * (win / 4),
{
    let step: usize = win / 4;
    let mut v: Vec<usize> = Vec::new();
    let mut w: usize = 0;
    while w <= n && n - w >= win
        invariant
            win >= 4,
            n + win <= usize::MAX,
            step == win / 4,
            w == v@.len() * step,
            v@.len() > 0 ==> w <= n + step && (v@.len() - 1) * step <= n - win,
            forall|k: int| 0 <= k < v@.len() ==> #[trigger] v@[k] == k * (win / 4),
        decreases n + win - w,
    {
        let ghost c = v@.len() as int;
        v.push(w);
        assert((c + 1) * step == c * step + step) by (nonlinear_arith);
        w += step;
    }
    proof {
        let c = v@.len() as int;
        if n >= win {
            assert((n - win) / (step as int) == c - 1) by (nonlinear_arith)
                requires
                    (c - 1) * step <= n - win,
                    n - win < c * step,
                    step > 0,
            ;
        }
    }
    v
}

/// Spectrum bins within `half` of zero frequency: those from zero up, then those
/// below zero.
pub open spec fn near_zero(nfft: int, half: int) -> Seq<usize> {
    Seq::new((2 * half + 1) as nat, |k: int| if k <= half { k as usize } else { (nfft - half + (k - half - 1)) as usize })
}

/// Spectrum bins within `half` of zero frequency.
pub fn search_bins(nfft: usize, half: usize) -> (v: Vec<usize>)
    requires
        2 * half < nfft,
    ensures
        v@ == near_zero(nfft as int, half as int),
        forall|k: int| 0 <= k < v@.len() ==> #[trigger] v@[k] < nfft,
{
    let ghost all = near_zero(nfft as int, half as int);
    let mut v: Vec<usize> = Vec::new();
    let mut b: usize = 0;
    while b <= half
        invariant
            2 * half < nfft,
            b <= half + 1,
            all == near_zero(nfft as int, half as int),
            v@ == all.take(b as int),
            forall|k: int| 0 <= k < v@.len() ==> #[trigger] v@[k] < nfft,
        decreases half + 1 - b,
    {
        v.push(b);
        b += 1;
        assert(v@ =~= all.take(b as int));
    }
    let mut c: usize = 0;
    while c < half
        invariant
            2 * half < nfft,
            c <= half,
            all == near_zero(nfft as int, half as int),
            v@ == all.take(half + 1 + c),
            forall|k: int| 0 <= k < v@.len() ==> #[trigger] v@[k] < nfft,
        decreases half - c,
    {
        v.push(nfft - half + c);
        c += 1;
        assert(v@ =~= all.take(half + 1 + c));
    }
    assert(all.take(2 * half + 1) =~= all);
    v
}

// ---------------------------------------------------------------- strings
/// Whether the difference of two doubles is a number that is not negative: both are
/// numbers, the first is not below the second, and they are not the same infinity.
pub open spec fn not_below(a: u64, b: u64) -> bool {
    &&& !not_a_number(a) && !not_a_number(b)
    &&& value(a) >= value(b)
    &&& finite(a) || a != b
}

/// Whether the difference of two doubles is a number that is not negative.
fn is_not_below(a: u64, b: u64) -> (r: bool)
    ensures
        r == not_below(a, b),
{
    !is_nan(a) && !is_nan(b) && !less(a, b) && (is_finite(a) || a != b)
}

/// Whether a double is a number that is not negative.
pub open spec fn not_negative(c: u64) -> bool {
    !not_a_number(c) && value(c) >= 0
}

/// Whether the first chip of bit `i` of a string is not below the second.
pub open spec fn leading(chips: Seq<u64>, base: int, i: int) -> bool {
    not_below(chips[base + 2 * i], chips[base + 2 * i + 1])
}

pub open spec fn leads(chips: Seq<u64>, base: int) -> Seq<bool> {
    Seq::new(85, |i: int| leading(chips, base, i))
}

/// Bits of the string whose chips start at `base`, number 1 first. Without a chip
/// before it the first bit sent is idle.
pub open spec fn bits_at(chips: Seq<u64>, base: int, prev: Option<bool>) -> Seq<u8> {
    Seq::new(85, |p: int| relative_bit(leads(chips, base), prev, 84 - p))
}

pub open spec fn upper(chip: Option<u64>) -> Option<bool> {
    match chip {
        Some(c) => Some(not_negative(c)),
        None => None,
    }
}

/// Bits of the string whose chips start at `base`; `prev_last_chip` is the chip
/// before them.
pub fn demod_string(chips: &[u64], base: usize, prev_last_chip: Option<u64>) -> (r: Option<[u8; 85]>)
    requires
        base + 200 <= usize::MAX,
    ensures
        r is Some <==> base + 200 <= chips@.len(),
        r matches Some(bits) ==> bits@ == bits_at(chips@, base as int, upper(prev_last_chip)) && is_bits(bits@),
{
    if base + STRING_CHIPS > chips.len() {
        return None;
    }
    let mut signs: [bool; 85] = [false; 85];
    let mut i: usize = 0;
    while i < 85
        invariant
            i <= 85,
            base + 200 <= usize::MAX,
            base + 200 <= chips@.len(),
            forall|k: int| 0 <= k < i ==> #[trigger] signs@[k] == leading(chips@, base as int, k),
        decreases 85 - i,
    {
        signs[i] = is_not_below(chips[base + 2 * i], chips[base + 2 * i + 1]);
        i += 1;
    }
    assert(signs@ =~= leads(chips@, base as int));
    let prev: Option<bool> = match prev_last_chip {
        Some(c) => Some(!is_nan(c) && !less(c, 0)),
        None => None,
    };
    let bits: [u8; 85] = relative_decode(&signs, prev);
    assert(bits@ =~= bits_at(chips@, base as int, prev)) by {
        assert forall|p: int| 0 <= p < 85 implies bits@[p] == bits_at(chips@, base as int, prev)[p] by {
            assert(bits@[84 - (84 - p)] == relative_bit(signs@, prev, 84 - p));
        }
    }
    Some(bits)
}

/// Bits of string `k` of a stream that is in step from chip `offset` on. The chip
/// before a string is the last of the time mark that ends the string before it.
pub open spec fn string_bits(chips: Seq<u64>, offset: int, k: int) -> Seq<u8> {
    let base = offset + 200 * k;
    bits_at(chips, base, if k == 0 { None } else { Some(not_negative(chips[base - 1])) })
}

/// Whether bits make up a string that passes its check.
pub open spec fn readable(bits: Seq<u8>) -> bool {
    verdict(bits) != Hamming::Fail && string_fields(repaired(bits)) is Some
}

/// Whether `s` is the string that bits make up.
pub open spec fn is_reading(s: GloString, bits: Seq<u8>) -> bool {
    &&& s.str_num as nat == unsigned(repaired(bits), 84, 81)
    &&& s.bits@ == repaired(bits)
    &&& s.hamming == verdict(bits)
    &&& s.data == string_fields(repaired(bits))->0
}

/// Numbers of the strings below `n` that pass their checks.
pub open spec fn readable_strings(chips: Seq<u64>, offset: int, n: int) -> Seq<usize>
    decreases n,
{
    if n <= 0 {
        Seq::empty()
    } else if readable(string_bits(chips, offset, n - 1)) {
        readable_strings(chips, offset, n - 1).push((n - 1) as usize)
    } else {
        readable_strings(chips, offset, n - 1)
    }
}

/// Number of whole strings from chip `offset` on.
pub open spec fn string_count(chips: Seq<u64>, offset: int) -> int {
    if offset <= chips.len() {
        (chips.len() - offset) / 200
    } else {
        0
    }
}

/// The strings of a stream that is in step from chip `offset` on, with their
/// numbers.
pub fn decode_strings(chips: &[u64], offset: usize) -> (out: Vec<(usize, GloString)>)
    requires
        chips@.len() + 200 <= usize::MAX,
    ensures
        ({
            let good = readable_strings(chips@, offset as int, string_count(chips@, offset as int));
            &&& out@.len() == good.len()
            &&& forall|j: int|
                0 <= j < out@.len() ==> (#[trigger] out@[j]).0 == good[j] && is_reading(
                    out@[j].1,
                    string_bits(chips@, offset as int, good[j] as int),
                )
        }),
{
    let n: usize = chips.len();
    let mut out: Vec<(usize, GloString)> = Vec::new();
    if offset > n {
        return out;
    }
    let count: usize = (n - offset) / STRING_CHIPS;
    let mut k: usize = 0;
    while k < count
        invariant
            n == chips@.len(),
            n + 200 <= usize::MAX,
            offset <= n,
            count == (n - offset) / 200,
            k <= count,
            out@.len() == readable_strings(chips@, offset as int, k as int).len(),
            forall|j: int|
                0 <= j < out@.len() ==> (#[trigger] out@[j]).0 == readable_strings(chips@, offset as int, k as int)[j]
                    && is_reading(
                    out@[j].1,
                    string_bits(
                        chips@,
                        offset as int,
                        readable_strings(chips@, offset as int, k as int)[j] as int,
                    ),
                ),
        decreases count - k,
    {
        assert(offset + 200 * k + 200 <= n);
        let base: usize = offset + STRING_CHIPS * k;
        let prev: Option<u64> = if k == 0 { None } else { Some(chips[base - 1]) };
        assert(upper(prev) == (if k == 0 { None } else { Some(not_negative(chips@[base - 1])) }));
        match demod_string(chips, base, prev) {
            Some(bits) => {
                assert(bits@ == string_bits(chips@, offset as int, k as int));
                match parse_string(bits) {
                    Some(s) => {
                        out.push((k, s));
                    },
                    None => {},
                }
            },
            None => {},
        }
        k += 1;
    }
    out
}

} // verus!
