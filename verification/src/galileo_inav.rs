//! Galileo I/NAV message: pages, words and ephemeris assembly.
//!
//! A nominal page is two parts of 120 bits, even and odd. Each part is
//! convolutionally coded, interleaved in 30 columns by 8 rows and sent behind a
//! ten-symbol sync pattern. The 128-bit word spans both parts, and a CRC-24Q
//! covers 196 bits of the page.
use vstd::prelude::*;
use vstd::string::*;
use vstd::arithmetic::power2::{lemma2_to64, pow2};
use crate::bits::{bits_value, field_bits, is_bits, law_field_reads_back_signed, law_field_reads_back_unsigned,
    lemma_signed_bound, lemma_value_bound, push_bits, signed_at, signed_value, unsigned_at, wrapped};
use crate::inmarsat::conv_coded;
use crate::sbas::{conv_encode, crc24q, crc24q_bits, crc24q_of, law_only_its_own_crc_checks};
use crate::text::{chars_of, push_char};

pub use crate::bits::{put_bits, sbits, ubits};
pub use crate::gps::broadcast::{F_REL_GAL, MU_GAL, OMEGA_E as OMEGA_E_GAL};

verus! {

/// Page part synchronisation pattern.
pub const SYNC: [u8; 10] = [0, 1, 0, 1, 1, 0, 0, 0, 0, 0];

pub const INTER_COLS: usize = 30;

pub const INTER_ROWS: usize = 8;

pub const PART_SYMS: usize = 240;

pub const PART_BITS: usize = 120;

pub const PAGE_SYMS: usize = 500;

pub const WORD_BITS: usize = 128;

pub const CRC_SPAN_BITS: usize = 196;

/// A span with fewer ones than this, or fewer zeros, is taken for no signal.
pub const MIN_SPAN_WEIGHT: usize = 12;

/// How far back a scan resumes so that no page across the seam is lost.
pub const GAL_RESCAN_BACK: usize = 502;

pub const GST_GPS_WEEK_OFFSET: u32 = 1024;

pub const DS_INAV_E1B: u32 = 1;

pub const DS_INAV_E5B: u32 = 4;

pub const DS_CLOCK_E5B_E1: u32 = 512;

/// Whether a data-source mask names I/NAV with the E5b, E1 clock.
pub fn data_sources_is_inav(ds: u32) -> (r: bool)
    ensures
        r == (ds & DS_CLOCK_E5B_E1 != 0 && ds & (DS_INAV_E1B | DS_INAV_E5B) != 0),
{
    (ds & DS_CLOCK_E5B_E1) != 0 && (ds & (DS_INAV_E1B | DS_INAV_E5B)) != 0
}

/// Bit `i` of a sequence, zero past its end.
pub open spec fn bit_or_zero(bits: Seq<u8>, i: int) -> int {
    if 0 <= i < bits.len() {
        (bits[i] % 2) as int
    } else {
        0
    }
}

/// Four bits as a number.
pub open spec fn nibble(bits: Seq<u8>, j: int) -> int {
    8 * bit_or_zero(bits, 4 * j) + 4 * bit_or_zero(bits, 4 * j + 1) + 2 * bit_or_zero(bits, 4 * j + 2) + bit_or_zero(
        bits,
        4 * j + 3,
    )
}

/// A lower-case hexadecimal digit.
pub open spec fn hex_digit(v: int) -> char {
    if v == 0 { '0' } else if v == 1 { '1' } else if v == 2 { '2' } else if v == 3 { '3' } else if v == 4 { '4' }
    else if v == 5 { '5' } else if v == 6 { '6' } else if v == 7 { '7' } else if v == 8 { '8' } else if v == 9 { '9' }
    else if v == 10 { 'a' } else if v == 11 { 'b' } else if v == 12 { 'c' } else if v == 13 { 'd' }
    else if v == 14 { 'e' } else { 'f' }
}

/// Value of a hexadecimal digit of either case.
pub open spec fn hex_value(c: char) -> Option<int> {
    if '0' <= c <= '9' {
        Some(c as int - '0' as int)
    } else if 'a' <= c <= 'f' {
        Some(c as int - 'a' as int + 10)
    } else if 'A' <= c <= 'F' {
        Some(c as int - 'A' as int + 10)
    } else {
        None
    }
}

/// Whole bytes in hexadecimal, the last one filled up with zero bits.
pub open spec fn hex_text(bits: Seq<u8>) -> Seq<char> {
    Seq::new((2 * ((bits.len() + 7) / 8)) as nat, |j: int| hex_digit(nibble(bits, j)))
}

pub open spec fn is_hex(s: Seq<char>) -> bool {
    forall|i: int| 0 <= i < s.len() ==> hex_value(#[trigger] s[i]) is Some
}

/// Bit `k` of a four-bit number, the highest first.
pub open spec fn nibble_bit(v: int, k: int) -> u8 {
    (if k == 0 {
        (v / 8) % 2
    } else if k == 1 {
        (v / 4) % 2
    } else if k == 2 {
        (v / 2) % 2
    } else {
        v % 2
    }) as u8
}

/// The first bits of hexadecimal digits, at most `nbits` of them.
pub open spec fn bits_of_hex(hex: Seq<char>, nbits: int) -> Seq<u8> {
    Seq::new(
        (if 4 * hex.len() < nbits { 4 * hex.len() as int } else { nbits }) as nat,
        |i: int| nibble_bit(hex_value(hex[i / 4])->0, i % 4),
    )
}

/// Reading 240 symbols that were written column by column row by row.
pub open spec fn page_interleaved<T>(sym: Seq<T>) -> Seq<T> {
    Seq::new(240, |k: int| sym[8 * (k % 30) + k / 30])
}

pub open spec fn page_deinterleaved<T>(sym: Seq<T>) -> Seq<T> {
    Seq::new(240, |k: int| sym[30 * (k % 8) + k / 8])
}

/// What a page carries besides its word.
#[derive(Debug, Clone)]
pub struct PageExtras {
    pub osnma: [u8; 40],
    pub sar: [u8; 22],
    pub spare: [u8; 2],
    pub ssp: [u8; 8],
}

impl Default for PageExtras {
    fn default() -> (e: Self)
        ensures
            forall|i: int| 0 <= i < 40 ==> #[trigger] e.osnma@[i] == 0,
            forall|i: int| 0 <= i < 22 ==> #[trigger] e.sar@[i] == 0,
            forall|i: int| 0 <= i < 2 ==> #[trigger] e.spare@[i] == 0,
            forall|i: int| 0 <= i < 8 ==> #[trigger] e.ssp@[i] == 0,
    {
        PageExtras { osnma: [0; 40], sar: [0; 22], spare: [0; 2], ssp: [0; 8] }
    }
}

pub open spec fn zeros(n: nat) -> Seq<u8> {
    Seq::new(n, |i: int| 0u8)
}

/// The covered bits of the even part: flags and the first 112 bits of the word.
pub open spec fn even_body(word: Seq<u8>, page_type: u8) -> Seq<u8> {
    seq![0u8, page_type & 1] + word.take(112)
}

/// The covered bits of the odd part: flags, the rest of the word and the extras.
pub open spec fn odd_body(word: Seq<u8>, extras: PageExtras, page_type: u8) -> Seq<u8> {
    seq![1u8, page_type & 1] + word.skip(112) + extras.osnma@ + extras.sar@ + extras.spare@
}

pub open spec fn page_crc(word: Seq<u8>, extras: PageExtras, page_type: u8) -> u32 {
    crc24q_of(even_body(word, page_type) + odd_body(word, extras, page_type))
}

pub open spec fn even_part(word: Seq<u8>, page_type: u8) -> Seq<u8> {
    even_body(word, page_type) + zeros(6)
}

pub open spec fn odd_part(word: Seq<u8>, extras: PageExtras, page_type: u8) -> Seq<u8> {
    odd_body(word, extras, page_type) + crc24q_bits(page_crc(word, extras, page_type)) + extras.ssp@ + zeros(6)
}

pub open spec fn extras_are_bits(extras: PageExtras) -> bool {
    is_bits(extras.osnma@) && is_bits(extras.sar@) && is_bits(extras.spare@) && is_bits(extras.ssp@)
}

/// The symbols of a page part: the sync pattern, then the interleaved code.
pub open spec fn part_symbols(part: Seq<u8>, invert_g2: bool) -> Seq<u8> {
    SYNC@ + page_interleaved(conv_coded(part, 0, invert_g2))
}

/// Number of ones.
pub open spec fn weight(s: Seq<u8>) -> int
    decreases s.len(),
{
    if s.len() == 0 {
        0
    } else {
        weight(s.drop_last()) + (s.last() % 2)
    }
}

pub open spec fn checked_span(even: Seq<u8>, odd: Seq<u8>) -> Seq<u8> {
    even.take(114) + odd.take(82)
}

pub open spec fn span_weight_ok(even: Seq<u8>, odd: Seq<u8>) -> bool {
    MIN_SPAN_WEIGHT <= weight(checked_span(even, odd)) <= CRC_SPAN_BITS - MIN_SPAN_WEIGHT
}

pub open spec fn page_crc_ok(even: Seq<u8>, odd: Seq<u8>) -> bool {
    crc24q_of(checked_span(even, odd) + odd.subrange(82, 106)) == 0 && span_weight_ok(even, odd)
}

pub open spec fn even_odd_ok(even: Seq<u8>, odd: Seq<u8>) -> bool {
    even[0] == 0 && odd[0] == 1
}

/// The word of a page that carries one.
pub open spec fn page_word(even: Seq<u8>, odd: Seq<u8>) -> Option<Seq<u8>> {
    if page_crc_ok(even, odd) && even_odd_ok(even, odd) && even[1] == 0 && odd[1] == 0 {
        Some(even.subrange(2, 114) + odd.subrange(2, 18))
    } else {
        None
    }
}

/// Outcome of checking a page.
#[derive(Debug, Clone)]
pub struct PageCheck {
    pub crc_ok: bool,
    pub weight_ok: bool,
    pub eo_ok: bool,
    pub page_type: u8,
    pub alert: bool,
    pub word: Option<Vec<u8>>,
}

/// A page found in a symbol stream.
#[derive(Debug, Clone)]
pub struct Page {
    pub sym_index: usize,
    pub polarity: i8,
    pub check: PageCheck,
}

/// Whether the sync pattern stands at `i`, in the given polarity. A symbol
/// stands for bit zero when it is positive and for bit one when it is negative;
/// one that is neither matches nothing.
pub open spec fn sync_at(signs: Seq<i8>, i: int, polarity: int) -> bool {
    0 <= i && i + 10 <= signs.len() && forall|k: int|
        0 <= k < 10 ==> #[trigger] signs[i + k] * polarity * (1 - 2 * SYNC@[k]) > 0
}

pub open spec fn any_sync_at(signs: Seq<i8>, i: int) -> bool {
    sync_at(signs, i, 1) || sync_at(signs, i, -1)
}

// ------------------------------------------------------------------ words
/// Word type 1. Angles are in units of 2^-31 semicircles, the eccentricity of
/// 2^-33, the root of the semi-major axis of 2^-19; times are in seconds.
#[derive(Debug, Clone, Copy, PartialEq, Eq)]
pub struct GalWord1 {
    pub iodnav: u16,
    pub toe: u32,
    pub m0: i64,
    pub e: u64,
    pub sqrt_a: u64,
}

/// Word type 2. Angles are in units of 2^-31 semicircles, the rate of 2^-43.
#[derive(Debug, Clone, Copy, PartialEq, Eq)]
pub struct GalWord2 {
    pub iodnav: u16,
    pub omega0: i64,
    pub i0: i64,
    pub omega: i64,
    pub idot: i64,
}

/// Word type 3. Rates are in units of 2^-43 semicircles, angular harmonics of
/// 2^-29 radians, radial ones of 2^-5 metres.
#[derive(Debug, Clone, Copy, PartialEq, Eq)]
pub struct GalWord3 {
    pub iodnav: u16,
    pub omega_dot: i64,
    pub delta_n: i64,
    pub cuc: i64,
    pub cus: i64,
    pub crc: i64,
    pub crs: i64,
    pub sisa: u8,
}

/// Word type 4. Harmonics are in units of 2^-29 radians, the clock terms of
/// 2^-34, 2^-46 and 2^-59; the time is in seconds.
#[derive(Debug, Clone, Copy, PartialEq, Eq)]
pub struct GalWord4 {
    pub iodnav: u16,
    pub svid: u8,
    pub cic: i64,
    pub cis: i64,
    pub toc: u32,
    pub af0: i64,
    pub af1: i64,
    pub af2: i64,
}

/// Word type 5. Ionosphere terms are in units of 2^-2, 2^-8 and 2^-15, group
/// delays of 2^-32 seconds.
#[derive(Debug, Clone, Copy, PartialEq, Eq)]
pub struct GalWord5 {
    pub ai0: u64,
    pub ai1: i64,
    pub ai2: i64,
    pub bgd_e1e5a: i64,
    pub bgd_e1e5b: i64,
    pub e5b_hs: u8,
    pub e1b_hs: u8,
    pub e5b_dvs: u8,
    pub e1b_dvs: u8,
    pub wn: u16,
    pub tow: u32,
}

/// Word type 6. The terms are in units of 2^-30 and 2^-50; times in seconds.
#[derive(Debug, Clone, Copy, PartialEq, Eq)]
pub struct GalWord6 {
    pub a0: i64,
    pub a1: i64,
    pub dt_ls: i32,
    pub t0t: u32,
    pub wn0t: u16,
    pub wn_lsf: u16,
    pub dn: u8,
    pub dt_lsf: i32,
    pub tow: u32,
}

/// Word type 0: week and time of week, where the time field says they are set.
#[derive(Debug, Clone, Copy, PartialEq, Eq)]
pub struct GalWord0 {
    pub time: Option<(u16, u32)>,
}

/// GST-GPS time offset. The terms are in units of 2^-35 and 2^-51; the time is
/// in seconds.
#[derive(Debug, Clone, Copy, PartialEq, Eq)]
pub struct Ggto {
    pub a0g: i64,
    pub a1g: i64,
    pub t0g: u32,
    pub wn0g: u16,
}

/// Word type 10, as far as the time offset goes.
#[derive(Debug, Clone, Copy, PartialEq, Eq)]
pub struct GalWord10 {
    pub ioda: u8,
    pub ggto: Option<Ggto>,
}

#[derive(Debug, Clone, Copy, PartialEq, Eq)]
pub enum InavWord {
    W0(GalWord0),
    W1(GalWord1),
    W2(GalWord2),
    W3(GalWord3),
    W4(GalWord4),
    W5(GalWord5),
    W6(GalWord6),
    W10(GalWord10),
}

impl InavWord {
    pub open spec fn type_number(self) -> u8 {
        match self {
            InavWord::W0(_) => 0,
            InavWord::W1(_) => 1,
            InavWord::W2(_) => 2,
            InavWord::W3(_) => 3,
            InavWord::W4(_) => 4,
            InavWord::W5(_) => 5,
            InavWord::W6(_) => 6,
            InavWord::W10(_) => 10,
        }
    }

    pub fn word_type(&self) -> (t: u8)
        ensures
            t == self.type_number(),
    {
        match self {
            InavWord::W0(_) => 0,
            InavWord::W1(_) => 1,
            InavWord::W2(_) => 2,
            InavWord::W3(_) => 3,
            InavWord::W4(_) => 4,
            InavWord::W5(_) => 5,
            InavWord::W6(_) => 6,
            InavWord::W10(_) => 10,
        }
    }
}

/// Whether the time offset fields are all ones, which marks it as absent.
pub open spec fn ggto_absent(w: Seq<u8>) -> bool {
    unsigned_at(w, 86, 16) == 0xffff && unsigned_at(w, 102, 12) == 0xfff && unsigned_at(w, 114, 8) == 0xff
        && unsigned_at(w, 122, 6) == 0x3f
}

/// What a 128-bit word says; types that carry nothing of use have no reading.
pub open spec fn word_reading(w: Seq<u8>) -> Option<InavWord> {
    let t = unsigned_at(w, 0, 6);
    if t == 1 {
        Some(
            InavWord::W1(
                GalWord1 {
                    iodnav: unsigned_at(w, 6, 10) as u16,
                    toe: (60 * unsigned_at(w, 16, 14)) as u32,
                    m0: signed_at(w, 30, 32) as i64,
                    e: unsigned_at(w, 62, 32) as u64,
                    sqrt_a: unsigned_at(w, 94, 32) as u64,
                },
            ),
        )
    } else if t == 2 {
        Some(
            InavWord::W2(
                GalWord2 {
                    iodnav: unsigned_at(w, 6, 10) as u16,
                    omega0: signed_at(w, 16, 32) as i64,
                    i0: signed_at(w, 48, 32) as i64,
                    omega: signed_at(w, 80, 32) as i64,
                    idot: signed_at(w, 112, 14) as i64,
                },
            ),
        )
    } else if t == 3 {
        Some(
            InavWord::W3(
                GalWord3 {
                    iodnav: unsigned_at(w, 6, 10) as u16,
                    omega_dot: signed_at(w, 16, 24) as i64,
                    delta_n: signed_at(w, 40, 16) as i64,
                    cuc: signed_at(w, 56, 16) as i64,
                    cus: signed_at(w, 72, 16) as i64,
                    crc: signed_at(w, 88, 16) as i64,
                    crs: signed_at(w, 104, 16) as i64,
                    sisa: unsigned_at(w, 120, 8) as u8,
                },
            ),
        )
    } else if t == 4 {
        Some(
            InavWord::W4(
                GalWord4 {
                    iodnav: unsigned_at(w, 6, 10) as u16,
                    svid: unsigned_at(w, 16, 6) as u8,
                    cic: signed_at(w, 22, 16) as i64,
                    cis: signed_at(w, 38, 16) as i64,
                    toc: (60 * unsigned_at(w, 54, 14)) as u32,
                    af0: signed_at(w, 68, 31) as i64,
                    af1: signed_at(w, 99, 21) as i64,
                    af2: signed_at(w, 120, 6) as i64,
                },
            ),
        )
    } else if t == 5 {
        Some(
            InavWord::W5(
                GalWord5 {
                    ai0: unsigned_at(w, 6, 11) as u64,
                    ai1: signed_at(w, 17, 11) as i64,
                    ai2: signed_at(w, 28, 14) as i64,
                    bgd_e1e5a: signed_at(w, 47, 10) as i64,
                    bgd_e1e5b: signed_at(w, 57, 10) as i64,
                    e5b_hs: unsigned_at(w, 67, 2) as u8,
                    e1b_hs: unsigned_at(w, 69, 2) as u8,
                    e5b_dvs: unsigned_at(w, 71, 1) as u8,
                    e1b_dvs: unsigned_at(w, 72, 1) as u8,
                    wn: unsigned_at(w, 73, 12) as u16,
                    tow: unsigned_at(w, 85, 20) as u32,
                },
            ),
        )
    } else if t == 6 {
        Some(
            InavWord::W6(
                GalWord6 {
                    a0: signed_at(w, 6, 32) as i64,
                    a1: signed_at(w, 38, 24) as i64,
                    dt_ls: signed_at(w, 62, 8) as i32,
                    t0t: (3600 * unsigned_at(w, 70, 8)) as u32,
                    wn0t: unsigned_at(w, 78, 8) as u16,
                    wn_lsf: unsigned_at(w, 86, 8) as u16,
                    dn: unsigned_at(w, 94, 3) as u8,
                    dt_lsf: signed_at(w, 97, 8) as i32,
                    tow: unsigned_at(w, 105, 20) as u32,
                },
            ),
        )
    } else if t == 0 {
        Some(
            InavWord::W0(
                GalWord0 {
                    time: if unsigned_at(w, 6, 2) == 2 {
                        Some((unsigned_at(w, 96, 12) as u16, unsigned_at(w, 108, 20) as u32))
                    } else {
                        None
                    },
                },
            ),
        )
    } else if t == 10 {
        Some(
            InavWord::W10(
                GalWord10 {
                    ioda: unsigned_at(w, 6, 4) as u8,
                    ggto: if ggto_absent(w) {
                        None
                    } else {
                        Some(
                            Ggto {
                                a0g: signed_at(w, 86, 16) as i64,
                                a1g: signed_at(w, 102, 12) as i64,
                                t0g: (3600 * unsigned_at(w, 114, 8)) as u32,
                                wn0g: unsigned_at(w, 122, 6) as u16,
                            },
                        )
                    },
                },
            ),
        )
    } else {
        None
    }
}

/// Almanac fields that share word 10 with the time offset.
#[derive(Debug, Clone, Copy)]
pub struct AlmTail10 {
    pub omega0: i64,
    pub omega_dot: i64,
    pub m0: i64,
    pub af0: i64,
    pub af1: i64,
    pub e5b_hs: u32,
    pub e1b_hs: u32,
}

impl Default for AlmTail10 {
    fn default() -> (a: Self)
        ensures
            a == (AlmTail10 { omega0: 0, omega_dot: 0, m0: 0, af0: 0, af1: 0, e5b_hs: 0, e1b_hs: 0 }),
    {
        AlmTail10 { omega0: 0, omega_dot: 0, m0: 0, af0: 0, af1: 0, e5b_hs: 0, e1b_hs: 0 }
    }
}

/// Bits of word type 1.
pub open spec fn word1(iodnav: u32, t0e: u32, m0: i64, e: i64, sqrt_a: i64) -> Seq<u8> {
    field_bits(1, 6) + field_bits(iodnav as int, 10) + field_bits(t0e as int, 14) + field_bits(m0 as int, 32)
        + field_bits(e as int, 32) + field_bits(sqrt_a as int, 32) + field_bits(0, 2)
}

/// Bits of word type 2.
pub open spec fn word2(iodnav: u32, omega0: i64, i0: i64, omega: i64, idot: i64) -> Seq<u8> {
    field_bits(2, 6) + field_bits(iodnav as int, 10) + field_bits(omega0 as int, 32) + field_bits(i0 as int, 32)
        + field_bits(omega as int, 32) + field_bits(idot as int, 14) + field_bits(0, 2)
}

/// Bits of word type 3.
pub open spec fn word3(
    iodnav: u32,
    omega_dot: i64,
    delta_n: i64,
    cuc: i64,
    cus: i64,
    crc_h: i64,
    crs: i64,
    sisa: u32,
) -> Seq<u8> {
    field_bits(3, 6) + field_bits(iodnav as int, 10) + field_bits(omega_dot as int, 24) + field_bits(
        delta_n as int,
        16,
    ) + field_bits(cuc as int, 16) + field_bits(cus as int, 16) + field_bits(crc_h as int, 16) + field_bits(
        crs as int,
        16,
    ) + field_bits(sisa as int, 8)
}

/// Bits of word type 4.
pub open spec fn word4(iodnav: u32, svid: u32, cic: i64, cis: i64, t0c: u32, af0: i64, af1: i64, af2: i64) -> Seq<
    u8,
> {
    field_bits(4, 6) + field_bits(iodnav as int, 10) + field_bits(svid as int, 6) + field_bits(cic as int, 16)
        + field_bits(cis as int, 16) + field_bits(t0c as int, 14) + field_bits(af0 as int, 31) + field_bits(
        af1 as int,
        21,
    ) + field_bits(af2 as int, 6) + field_bits(0, 2)
}

/// Bits of word type 5.
pub open spec fn word5(
    ai0: u32,
    ai1: i64,
    ai2: i64,
    bgd_e1e5a: i64,
    bgd_e1e5b: i64,
    e5b_hs: u32,
    e1b_hs: u32,
    e5b_dvs: u32,
    e1b_dvs: u32,
    wn: u32,
    tow: u32,
    region: [u8; 5],
) -> Seq<u8> {
    field_bits(5, 6) + field_bits(ai0 as int, 11) + field_bits(ai1 as int, 11) + field_bits(ai2 as int, 14)
        + field_bits(region@[0] as int, 1) + field_bits(region@[1] as int, 1) + field_bits(region@[2] as int, 1)
        + field_bits(region@[3] as int, 1) + field_bits(region@[4] as int, 1) + field_bits(bgd_e1e5a as int, 10)
        + field_bits(bgd_e1e5b as int, 10) + field_bits(e5b_hs as int, 2) + field_bits(e1b_hs as int, 2) + field_bits(
        e5b_dvs as int,
        1,
    ) + field_bits(e1b_dvs as int, 1) + field_bits(wn as int, 12) + field_bits(tow as int, 20) + field_bits(0, 23)
}

/// Bits of word type 6.
pub open spec fn word6(
    a0: i64,
    a1: i64,
    dt_ls: i64,
    t0t: u32,
    wn0t: u32,
    wn_lsf: u32,
    dn: u32,
    dt_lsf: i64,
    tow: u32,
) -> Seq<u8> {
    field_bits(6, 6) + field_bits(a0 as int, 32) + field_bits(a1 as int, 24) + field_bits(dt_ls as int, 8)
        + field_bits(t0t as int, 8) + field_bits(wn0t as int, 8) + field_bits(wn_lsf as int, 8) + field_bits(
        dn as int,
        3,
    ) + field_bits(dt_lsf as int, 8) + field_bits(tow as int, 20) + field_bits(0, 3)
}

/// Bits of word type 0.
pub open spec fn word0(time_flag: u32, wn: u32, tow: u32) -> Seq<u8> {
    field_bits(0, 6) + field_bits(time_flag as int, 2) + field_bits(0, 88) + field_bits(wn as int, 12) + field_bits(
        tow as int,
        20,
    )
}

/// Bits of word type 10.
pub open spec fn word10(ioda: u32, a0g: i64, a1g: i64, t0g: u32, wn0g: u32, alm: AlmTail10) -> Seq<u8> {
    field_bits(10, 6) + field_bits(ioda as int, 4) + field_bits(alm.omega0 as int, 16) + field_bits(
        alm.omega_dot as int,
        11,
    ) + field_bits(alm.m0 as int, 16) + field_bits(alm.af0 as int, 16) + field_bits(alm.af1 as int, 13) + field_bits(
        alm.e5b_hs as int,
        2,
    ) + field_bits(alm.e1b_hs as int, 2) + field_bits(a0g as int, 16) + field_bits(a1g as int, 12) + field_bits(
        t0g as int,
        8,
    ) + field_bits(wn0g as int, 6)
}

// ------------------------------------------------------------- ephemeris
/// An ephemeris put together from one issue of words 1 to 4, in the units of
/// those words.
#[derive(Debug, Clone, Copy, PartialEq, Eq)]
pub struct GalEph {
    pub iodnav: u16,
    pub sisa: u8,
    pub w1: GalWord1,
    pub w2: GalWord2,
    pub w3: GalWord3,
    pub w4: GalWord4,
    /// group delay in units of 2^-32 seconds
    pub tgd: i64,
    /// zero when the signal is healthy
    pub health: u8,
    /// GPS week, zero when it is not known
    pub week: u32,
}

/// Signal health: the health status above the data validity bit.
pub open spec fn composite_health(w5: GalWord5) -> u8 {
    if w5.e1b_hs == 0 && w5.e1b_dvs == 0 {
        0
    } else {
        (w5.e1b_hs << 1) | w5.e1b_dvs
    }
}

/// The ephemeris of four words of one issue; words of different issues give
/// none.
pub open spec fn assembled(
    w1: GalWord1,
    w2: GalWord2,
    w3: GalWord3,
    w4: GalWord4,
    w5: Option<GalWord5>,
    gst_wn: Option<u16>,
) -> Option<GalEph> {
    let week = match gst_wn {
        Some(w) => (w + GST_GPS_WEEK_OFFSET) as u32,
        None => match w5 {
            Some(f) => (f.wn + GST_GPS_WEEK_OFFSET) as u32,
            None => 0,
        },
    };
    if w1.iodnav == w2.iodnav && w2.iodnav == w3.iodnav && w3.iodnav == w4.iodnav {
        Some(
            GalEph {
                iodnav: w1.iodnav,
                sisa: w3.sisa,
                w1,
                w2,
                w3,
                w4,
                tgd: match w5 {
                    Some(f) => f.bgd_e1e5b,
                    None => 0,
                },
                health: match w5 {
                    Some(f) => composite_health(f),
                    None => 0,
                },
                week,
            },
        )
    } else {
        None
    }
}

// ------------------------------------------------------------------ laws
/// Interleaving and de-interleaving undo each other.
pub proof fn law_page_interleaver_round_trips<T>(sym: Seq<T>)
    requires
        sym.len() == 240,
    ensures
        page_deinterleaved(page_interleaved(sym)) == sym,
        page_interleaved(page_deinterleaved(sym)) == sym,
{
    assert forall|k: int| 0 <= k < 240 implies #[trigger] page_deinterleaved(page_interleaved(sym))[k] == sym[k] by {
        let m = 30 * (k % 8) + k / 8;
        assert(m % 30 == k / 8 && m / 30 == k % 8);
        assert(page_deinterleaved(page_interleaved(sym))[k] == page_interleaved(sym)[m]);
        assert(page_interleaved(sym)[m] == sym[8 * (m % 30) + m / 30]);
    }
    assert forall|k: int| 0 <= k < 240 implies #[trigger] page_interleaved(page_deinterleaved(sym))[k] == sym[k] by {
        let m = 8 * (k % 30) + k / 30;
        assert(m % 8 == k / 30 && m / 8 == k % 30);
        assert(page_interleaved(page_deinterleaved(sym))[k] == page_deinterleaved(sym)[m]);
        assert(page_deinterleaved(sym)[m] == sym[30 * (m % 8) + m / 8]);
    }
    assert(page_deinterleaved(page_interleaved(sym)) =~= sym);
    assert(page_interleaved(page_deinterleaved(sym)) =~= sym);
}

/// The symbols of a part are written in columns of eight and sent in rows of thirty: symbol
/// `8 * c + r` is sent at place `30 * r + c`.
pub proof fn law_page_interleaver_places<T>(sym: Seq<T>, r: int, c: int)
    requires
        sym.len() == 240,
        0 <= r < 8,
        0 <= c < 30,
    ensures
        page_interleaved(sym).len() == 240,
        page_interleaved(sym)[30 * r + c] == sym[8 * c + r],
        page_deinterleaved(sym).len() == 240,
        page_deinterleaved(sym)[8 * c + r] == sym[30 * r + c],
{
    assert((30 * r + c) % 30 == c && (30 * r + c) / 30 == r);
    assert((8 * c + r) % 8 == r && (8 * c + r) / 8 == c);
}

/// A part starts with the symbols 0101100000: signs that are above zero for 0 and below for 1,
/// or all the other way round.
pub proof fn law_sync_signs(signs: Seq<i8>, i: int)
    requires
        0 <= i,
        i + 10 <= signs.len(),
    ensures
        sync_at(signs, i, 1) <==> signs[i] > 0 && signs[i + 1] < 0 && signs[i + 2] > 0 && signs[i + 3] < 0 && signs[i + 4]
            < 0 && signs[i + 5] > 0 && signs[i + 6] > 0 && signs[i + 7] > 0 && signs[i + 8] > 0 && signs[i + 9] > 0,
        sync_at(signs, i, -1) <==> signs[i] < 0 && signs[i + 1] > 0 && signs[i + 2] < 0 && signs[i + 3] > 0 && signs[i
            + 4] > 0 && signs[i + 5] < 0 && signs[i + 6] < 0 && signs[i + 7] < 0 && signs[i + 8] < 0 && signs[i + 9] < 0,
{
    assert forall|k: int| 0 <= k < 10 implies #[trigger] signs[i + k] * 1 * (1 - 2 * SYNC@[k]) == (if SYNC@[k] == 0 {
        signs[i + k] as int
    } else {
        -signs[i + k]
    }) && signs[i + k] * -1 * (1 - 2 * SYNC@[k]) == (if SYNC@[k] == 0 {
        -signs[i + k]
    } else {
        signs[i + k] as int
    }) by {
        let (x, s) = (signs[i + k] as int, SYNC@[k] as int);
        assert(s == 0 || s == 1);
        assert(x * 1 * (1 - 2 * s) == (if s == 0 {
            x
        } else {
            -x
        }) && x * -1 * (1 - 2 * s) == (if s == 0 {
            -x
        } else {
            x
        })) by (nonlinear_arith)
            requires
                s == 0 || s == 1,
        ;
    }
    let (a0, a1, a2, a3, a4) = (signs[i + 0], signs[i + 1], signs[i + 2], signs[i + 3], signs[i + 4]);
    let (a5, a6, a7, a8, a9) = (signs[i + 5], signs[i + 6], signs[i + 7], signs[i + 8], signs[i + 9]);
}

/// What a page holds: the even part is 00, 112 bits of the word and a tail of six, the odd part
/// 10, the other 16 bits of the word, 64 others, the check value of all 196 before it, eight
/// more and a tail of six. The word comes out exactly if the check value is right and 12 up to
/// 184 of the bits are ones.
pub proof fn law_places_in_a_page(
    even: Seq<u8>,
    odd: Seq<u8>,
    first: Seq<u8>,
    last: Seq<u8>,
    others: Seq<u8>,
    crc: Seq<u8>,
    ssp: Seq<u8>,
    tail1: Seq<u8>,
    tail2: Seq<u8>,
)
    requires
        first.len() == 112,
        tail1.len() == 6,
        even == seq![0u8, 0] + first + tail1,
        last.len() == 16,
        others.len() == 64,
        crc.len() == 24,
        is_bits(crc),
        ssp.len() == 8,
        tail2.len() == 6,
        odd == seq![1u8, 0] + last + others + crc + ssp + tail2,
    ensures
        ({
            let span = seq![0u8, 0] + first + seq![1u8, 0] + last + others;
            if bits_value(crc) == crc24q_of(span) && 12 <= weight(span) <= 184 {
                page_word(even, odd) == Some(first + last)
            } else {
                page_word(even, odd) is None
            }
        }),
{
    let span = seq![0u8, 0] + first + seq![1u8, 0] + last + others;
    assert(checked_span(even, odd) =~= span);
    assert(odd.subrange(82, 106) =~= crc);
    law_only_its_own_crc_checks(span, crc);
    assert(even.subrange(2, 114) =~= first);
    assert(odd.subrange(2, 18) =~= last);
}

/// A hexadecimal digit stands for four bits, the first of the greatest weight; bits that are
/// missing at the end count as zeros.
pub proof fn law_digits_stand_for_four_bits(bits: Seq<u8>, j: int)
    requires
        is_bits(bits),
        0 <= j < hex_text(bits).len(),
    ensures
        4 * j + 4 <= bits.len() ==> hex_value(hex_text(bits)[j]) == Some(
            8 * bits[4 * j] + 4 * bits[4 * j + 1] + 2 * bits[4 * j + 2] + bits[4 * j + 3],
        ),
        4 * j >= bits.len() ==> hex_text(bits)[j] == '0',
{
    if 4 * j + 4 <= bits.len() {
        assert(bits[4 * j] <= 1 && bits[4 * j + 1] <= 1 && bits[4 * j + 2] <= 1 && bits[4 * j + 3] <= 1);
    }
}

/// An ephemeris is of four words of one issue. Its clock correction is that of E5b, it is
/// healthy as E1-B is, and its week is the one given or else that of word 5, counted from
/// the GPS epoch, 1024 weeks earlier.
pub proof fn law_ephemeris_is_of_one_issue(
    w1: GalWord1,
    w2: GalWord2,
    w3: GalWord3,
    w4: GalWord4,
    w5: Option<GalWord5>,
    gst_wn: Option<u16>,
)
    ensures
        assembled(w1, w2, w3, w4, w5, gst_wn) is Some <==> w2.iodnav == w1.iodnav && w3.iodnav == w1.iodnav && w4.iodnav
            == w1.iodnav,
        assembled(w1, w2, w3, w4, w5, gst_wn) matches Some(e) ==> {
            &&& e.iodnav == w4.iodnav && e.sisa == w3.sisa
            &&& e.w1 == w1 && e.w2 == w2 && e.w3 == w3 && e.w4 == w4
            &&& gst_wn matches Some(w) ==> e.week == w + 1024
            &&& gst_wn is None && w5 is None ==> e.week == 0
            &&& w5 is None ==> e.tgd == 0 && e.health == 0
            &&& w5 matches Some(f) ==> {
                &&& gst_wn is None ==> e.week == f.wn + 1024
                &&& e.tgd == f.bgd_e1e5b
                &&& f.e1b_hs <= 3 && f.e1b_dvs <= 1 ==> e.health == 2 * f.e1b_hs + f.e1b_dvs
            }
        },
{
    if let Some(f) = w5 {
        lemma_page_flag(f.e1b_hs);
    }
}

/// Whether a character is a lower-case hexadecimal digit.
pub open spec fn lower_hex(c: char) -> bool {
    '0' <= c <= '9' || 'a' <= c <= 'f'
}

proof fn lemma_lower_hex(v: int)
    ensures
        lower_hex(hex_digit(v)),
{
}

/// Bits survive the trip through hexadecimal, which takes two lower-case digits for
/// every eight bits begun.
pub proof fn law_hex_round_trips(bits: Seq<u8>)
    requires
        is_bits(bits),
    ensures
        is_hex(hex_text(bits)),
        hex_text(bits).len() == 2 * ((bits.len() + 7) / 8),
        forall|j: int| 0 <= j < hex_text(bits).len() ==> lower_hex(#[trigger] hex_text(bits)[j]),
        bits_of_hex(hex_text(bits), bits.len() as int) == bits,
{
    let h = hex_text(bits);
    assert forall|j: int| 0 <= j < h.len() implies hex_value(#[trigger] h[j]) == Some(nibble(bits, j)) by {
        assert(h[j] == hex_digit(nibble(bits, j)));
    }
    assert forall|j: int| 0 <= j < h.len() implies lower_hex(#[trigger] h[j]) by {
        lemma_lower_hex(nibble(bits, j));
    }
    assert forall|i: int| 0 <= i < bits.len() implies bits_of_hex(h, bits.len() as int)[i] == bits[i] by {
        assert(h[i / 4] == hex_digit(nibble(bits, i / 4)));
        assert(hex_value(h[i / 4]) == Some(nibble(bits, i / 4)));
        assert(bits[i] <= 1);
    }
    assert(bits_of_hex(h, bits.len() as int) =~= bits);
}

proof fn lemma_page_flag(t: u8)
    by (bit_vector)
    ensures
        t & 1 <= 1,
        t <= 1 ==> t & 1 == t,
        t <= 3 ==> (t << 1) | 0 == 2 * t && (t << 1) | 1 == 2 * t + 1,
{
}

proof fn lemma_built_page(word: Seq<u8>, extras: PageExtras, page_type: u8)
    requires
        word.len() == 128,
    ensures
        ({
            let even = even_part(word, page_type);
            let odd = odd_part(word, extras, page_type);
            &&& even.len() == 120
            &&& odd.len() == 120
            &&& even.take(114) == even_body(word, page_type)
            &&& odd.take(82) == odd_body(word, extras, page_type)
            &&& odd.subrange(82, 106) == crc24q_bits(page_crc(word, extras, page_type))
            &&& even.subrange(2, 114) + odd.subrange(2, 18) == word
            &&& even[0] == 0 && odd[0] == 1 && even[1] == page_type & 1 && odd[1] == page_type & 1
        }),
{
    let even = even_part(word, page_type);
    let odd = odd_part(word, extras, page_type);
    assert(even.take(114) =~= even_body(word, page_type));
    assert(odd.take(82) =~= odd_body(word, extras, page_type));
    assert(odd.subrange(82, 106) =~= crc24q_bits(page_crc(word, extras, page_type)));
    assert(even.subrange(2, 114) =~= word.take(112));
    assert(odd.subrange(2, 18) =~= word.skip(112));
    assert(word.take(112) + word.skip(112) =~= word);
}

/// A page that was built around a word passes its CRC, and gives the word back
/// whenever its weight is plausible and it is of the nominal type. An alert
/// page gives no word.
pub proof fn law_built_pages_give_the_word_back(word: Seq<u8>, extras: PageExtras, page_type: u8)
    requires
        word.len() == 128,
    ensures
        ({
            let even = even_part(word, page_type);
            let odd = odd_part(word, extras, page_type);
            &&& even_odd_ok(even, odd)
            &&& page_crc_ok(even, odd) == span_weight_ok(even, odd)
            &&& page_type & 1 == 0 && span_weight_ok(even, odd) ==> page_word(even, odd) == Some(word)
            &&& page_type & 1 == 1 ==> page_word(even, odd) is None
        }),
{
    lemma_built_page(word, extras, page_type);
    crate::sbas::law_appended_crc_checks(even_body(word, page_type) + odd_body(word, extras, page_type));
    lemma_page_flag(page_type);
}

proof fn lemma_fields(v: int, n: nat)
    requires
        0 < n,
    ensures
        field_bits(v, n).len() == n,
        bits_value(field_bits(v, n)) == v % (pow2(n) as int),
        signed_value(field_bits(v, n)) == wrapped(v, n),
{
    law_field_reads_back_unsigned(v, n);
    law_field_reads_back_signed(v, n);
}

/// Word 1 reads back with every field reduced to its width.
pub proof fn law_word1_reads_back(iodnav: u32, t0e: u32, m0: i64, e: i64, sqrt_a: i64)
    ensures
        word_reading(word1(iodnav, t0e, m0, e, sqrt_a)) == Some(
            InavWord::W1(
                GalWord1 {
                    iodnav: (iodnav % 1024) as u16,
                    toe: (60 * (t0e % 16384)) as u32,
                    m0: wrapped(m0 as int, 32) as i64,
                    e: (e as int % 0x1_0000_0000) as u64,
                    sqrt_a: (sqrt_a as int % 0x1_0000_0000) as u64,
                },
            ),
        ),
{
    lemma2_to64();
    let w = word1(iodnav, t0e, m0, e, sqrt_a);
    lemma_fields(1, 6);
    lemma_fields(iodnav as int, 10);
    lemma_fields(t0e as int, 14);
    lemma_fields(m0 as int, 32);
    lemma_fields(e as int, 32);
    lemma_fields(sqrt_a as int, 32);
    assert(w.subrange(0, 6) =~= field_bits(1, 6));
    assert(w.subrange(6, 16) =~= field_bits(iodnav as int, 10));
    assert(w.subrange(16, 30) =~= field_bits(t0e as int, 14));
    assert(w.subrange(30, 62) =~= field_bits(m0 as int, 32));
    assert(w.subrange(62, 94) =~= field_bits(e as int, 32));
    assert(w.subrange(94, 126) =~= field_bits(sqrt_a as int, 32));
}

/// Word 2 reads back with every field reduced to its width.
pub proof fn law_word2_reads_back(iodnav: u32, omega0: i64, i0: i64, omega: i64, idot: i64)
    ensures
        word_reading(word2(iodnav, omega0, i0, omega, idot)) == Some(
            InavWord::W2(
                GalWord2 {
                    iodnav: (iodnav % 1024) as u16,
                    omega0: wrapped(omega0 as int, 32) as i64,
                    i0: wrapped(i0 as int, 32) as i64,
                    omega: wrapped(omega as int, 32) as i64,
                    idot: wrapped(idot as int, 14) as i64,
                },
            ),
        ),
{
    lemma2_to64();
    let w = word2(iodnav, omega0, i0, omega, idot);
    lemma_fields(2, 6);
    lemma_fields(iodnav as int, 10);
    lemma_fields(omega0 as int, 32);
    lemma_fields(i0 as int, 32);
    lemma_fields(omega as int, 32);
    lemma_fields(idot as int, 14);
    assert(w.subrange(0, 6) =~= field_bits(2, 6));
    assert(w.subrange(6, 16) =~= field_bits(iodnav as int, 10));
    assert(w.subrange(16, 48) =~= field_bits(omega0 as int, 32));
    assert(w.subrange(48, 80) =~= field_bits(i0 as int, 32));
    assert(w.subrange(80, 112) =~= field_bits(omega as int, 32));
    assert(w.subrange(112, 126) =~= field_bits(idot as int, 14));
}

/// Word 3 reads back with every field reduced to its width.
pub proof fn law_word3_reads_back(
    iodnav: u32,
    omega_dot: i64,
    delta_n: i64,
    cuc: i64,
    cus: i64,
    crc_h: i64,
    crs: i64,
    sisa: u32,
)
    ensures
        word_reading(word3(iodnav, omega_dot, delta_n, cuc, cus, crc_h, crs, sisa)) == Some(
            InavWord::W3(
                GalWord3 {
                    iodnav: (iodnav % 1024) as u16,
                    omega_dot: wrapped(omega_dot as int, 24) as i64,
                    delta_n: wrapped(delta_n as int, 16) as i64,
                    cuc: wrapped(cuc as int, 16) as i64,
                    cus: wrapped(cus as int, 16) as i64,
                    crc: wrapped(crc_h as int, 16) as i64,
                    crs: wrapped(crs as int, 16) as i64,
                    sisa: (sisa % 256) as u8,
                },
            ),
        ),
{
    lemma2_to64();
    let w = word3(iodnav, omega_dot, delta_n, cuc, cus, crc_h, crs, sisa);
    lemma_fields(3, 6);
    lemma_fields(iodnav as int, 10);
    lemma_fields(omega_dot as int, 24);
    lemma_fields(delta_n as int, 16);
    lemma_fields(cuc as int, 16);
    lemma_fields(cus as int, 16);
    lemma_fields(crc_h as int, 16);
    lemma_fields(crs as int, 16);
    lemma_fields(sisa as int, 8);
    assert(w.subrange(0, 6) =~= field_bits(3, 6));
    assert(w.subrange(6, 16) =~= field_bits(iodnav as int, 10));
    assert(w.subrange(16, 40) =~= field_bits(omega_dot as int, 24));
    assert(w.subrange(40, 56) =~= field_bits(delta_n as int, 16));
    assert(w.subrange(56, 72) =~= field_bits(cuc as int, 16));
    assert(w.subrange(72, 88) =~= field_bits(cus as int, 16));
    assert(w.subrange(88, 104) =~= field_bits(crc_h as int, 16));
    assert(w.subrange(104, 120) =~= field_bits(crs as int, 16));
    assert(w.subrange(120, 128) =~= field_bits(sisa as int, 8));
}

/// Word 4 reads back with every field reduced to its width.
pub proof fn law_word4_reads_back(
    iodnav: u32,
    svid: u32,
    cic: i64,
    cis: i64,
    t0c: u32,
    af0: i64,
    af1: i64,
    af2: i64,
)
    ensures
        word_reading(word4(iodnav, svid, cic, cis, t0c, af0, af1, af2)) == Some(
            InavWord::W4(
                GalWord4 {
                    iodnav: (iodnav % 1024) as u16,
                    svid: (svid % 64) as u8,
                    cic: wrapped(cic as int, 16) as i64,
                    cis: wrapped(cis as int, 16) as i64,
                    toc: (60 * (t0c % 16384)) as u32,
                    af0: wrapped(af0 as int, 31) as i64,
                    af1: wrapped(af1 as int, 21) as i64,
                    af2: wrapped(af2 as int, 6) as i64,
                },
            ),
        ),
{
    lemma2_to64();
    let w = word4(iodnav, svid, cic, cis, t0c, af0, af1, af2);
    lemma_fields(4, 6);
    lemma_fields(iodnav as int, 10);
    lemma_fields(svid as int, 6);
    lemma_fields(cic as int, 16);
    lemma_fields(cis as int, 16);
    lemma_fields(t0c as int, 14);
    lemma_fields(af0 as int, 31);
    lemma_fields(af1 as int, 21);
    lemma_fields(af2 as int, 6);
    assert(w.subrange(0, 6) =~= field_bits(4, 6));
    assert(w.subrange(6, 16) =~= field_bits(iodnav as int, 10));
    assert(w.subrange(16, 22) =~= field_bits(svid as int, 6));
    assert(w.subrange(22, 38) =~= field_bits(cic as int, 16));
    assert(w.subrange(38, 54) =~= field_bits(cis as int, 16));
    assert(w.subrange(54, 68) =~= field_bits(t0c as int, 14));
    assert(w.subrange(68, 99) =~= field_bits(af0 as int, 31));
    assert(w.subrange(99, 120) =~= field_bits(af1 as int, 21));
    assert(w.subrange(120, 126) =~= field_bits(af2 as int, 6));
}

/// Word 5 reads back with every field reduced to its width.
pub proof fn law_word5_reads_back(
    ai0: u32,
    ai1: i64,
    ai2: i64,
    bgd_e1e5a: i64,
    bgd_e1e5b: i64,
    e5b_hs: u32,
    e1b_hs: u32,
    e5b_dvs: u32,
    e1b_dvs: u32,
    wn: u32,
    tow: u32,
    region: [u8; 5],
)
    ensures
        word_reading(
            word5(ai0, ai1, ai2, bgd_e1e5a, bgd_e1e5b, e5b_hs, e1b_hs, e5b_dvs, e1b_dvs, wn, tow, region),
        ) == Some(
            InavWord::W5(
                GalWord5 {
                    ai0: (ai0 % 2048) as u64,
                    ai1: wrapped(ai1 as int, 11) as i64,
                    ai2: wrapped(ai2 as int, 14) as i64,
                    bgd_e1e5a: wrapped(bgd_e1e5a as int, 10) as i64,
                    bgd_e1e5b: wrapped(bgd_e1e5b as int, 10) as i64,
                    e5b_hs: (e5b_hs % 4) as u8,
                    e1b_hs: (e1b_hs % 4) as u8,
                    e5b_dvs: (e5b_dvs % 2) as u8,
                    e1b_dvs: (e1b_dvs % 2) as u8,
                    wn: (wn % 4096) as u16,
                    tow: tow % 0x10_0000,
                },
            ),
        ),
{
    lemma2_to64();
    let w = word5(ai0, ai1, ai2, bgd_e1e5a, bgd_e1e5b, e5b_hs, e1b_hs, e5b_dvs, e1b_dvs, wn, tow, region);
    lemma_fields(5, 6);
    lemma_fields(ai0 as int, 11);
    lemma_fields(ai1 as int, 11);
    lemma_fields(ai2 as int, 14);
    lemma_fields(bgd_e1e5a as int, 10);
    lemma_fields(bgd_e1e5b as int, 10);
    lemma_fields(e5b_hs as int, 2);
    lemma_fields(e1b_hs as int, 2);
    lemma_fields(e5b_dvs as int, 1);
    lemma_fields(e1b_dvs as int, 1);
    lemma_fields(wn as int, 12);
    lemma_fields(tow as int, 20);
    assert(w.subrange(0, 6) =~= field_bits(5, 6));
    assert(w.subrange(6, 17) =~= field_bits(ai0 as int, 11));
    assert(w.subrange(17, 28) =~= field_bits(ai1 as int, 11));
    assert(w.subrange(28, 42) =~= field_bits(ai2 as int, 14));
    assert(w.subrange(47, 57) =~= field_bits(bgd_e1e5a as int, 10));
    assert(w.subrange(57, 67) =~= field_bits(bgd_e1e5b as int, 10));
    assert(w.subrange(67, 69) =~= field_bits(e5b_hs as int, 2));
    assert(w.subrange(69, 71) =~= field_bits(e1b_hs as int, 2));
    assert(w.subrange(71, 72) =~= field_bits(e5b_dvs as int, 1));
    assert(w.subrange(72, 73) =~= field_bits(e1b_dvs as int, 1));
    assert(w.subrange(73, 85) =~= field_bits(wn as int, 12));
    assert(w.subrange(85, 105) =~= field_bits(tow as int, 20));
}

/// Word 6 reads back with every field reduced to its width.
pub proof fn law_word6_reads_back(
    a0: i64,
    a1: i64,
    dt_ls: i64,
    t0t: u32,
    wn0t: u32,
    wn_lsf: u32,
    dn: u32,
    dt_lsf: i64,
    tow: u32,
)
    ensures
        word_reading(word6(a0, a1, dt_ls, t0t, wn0t, wn_lsf, dn, dt_lsf, tow)) == Some(
            InavWord::W6(
                GalWord6 {
                    a0: wrapped(a0 as int, 32) as i64,
                    a1: wrapped(a1 as int, 24) as i64,
                    dt_ls: wrapped(dt_ls as int, 8) as i32,
                    t0t: (3600 * (t0t % 256)) as u32,
                    wn0t: (wn0t % 256) as u16,
                    wn_lsf: (wn_lsf % 256) as u16,
                    dn: (dn % 8) as u8,
                    dt_lsf: wrapped(dt_lsf as int, 8) as i32,
                    tow: tow % 0x10_0000,
                },
            ),
        ),
{
    lemma2_to64();
    let w = word6(a0, a1, dt_ls, t0t, wn0t, wn_lsf, dn, dt_lsf, tow);
    lemma_fields(6, 6);
    lemma_fields(a0 as int, 32);
    lemma_fields(a1 as int, 24);
    lemma_fields(dt_ls as int, 8);
    lemma_fields(t0t as int, 8);
    lemma_fields(wn0t as int, 8);
    lemma_fields(wn_lsf as int, 8);
    lemma_fields(dn as int, 3);
    lemma_fields(dt_lsf as int, 8);
    lemma_fields(tow as int, 20);
    assert(w.subrange(0, 6) =~= field_bits(6, 6));
    assert(w.subrange(6, 38) =~= field_bits(a0 as int, 32));
    assert(w.subrange(38, 62) =~= field_bits(a1 as int, 24));
    assert(w.subrange(62, 70) =~= field_bits(dt_ls as int, 8));
    assert(w.subrange(70, 78) =~= field_bits(t0t as int, 8));
    assert(w.subrange(78, 86) =~= field_bits(wn0t as int, 8));
    assert(w.subrange(86, 94) =~= field_bits(wn_lsf as int, 8));
    assert(w.subrange(94, 97) =~= field_bits(dn as int, 3));
    assert(w.subrange(97, 105) =~= field_bits(dt_lsf as int, 8));
    assert(w.subrange(105, 125) =~= field_bits(tow as int, 20));
}

/// Word 0 reads back its time exactly when its flag says that it is set.
pub proof fn law_word0_reads_back(time_flag: u32, wn: u32, tow: u32)
    ensures
        word_reading(word0(time_flag, wn, tow)) == Some(
            InavWord::W0(
                GalWord0 {
                    time: if time_flag % 4 == 2 {
                        Some(((wn % 4096) as u16, tow % 0x10_0000))
                    } else {
                        None
                    },
                },
            ),
        ),
{
    lemma2_to64();
    let w = word0(time_flag, wn, tow);
    lemma_fields(0, 6);
    lemma_fields(time_flag as int, 2);
    lemma_fields(wn as int, 12);
    lemma_fields(tow as int, 20);
    assert(w.subrange(0, 6) =~= field_bits(0, 6));
    assert(w.subrange(6, 8) =~= field_bits(time_flag as int, 2));
    assert(w.subrange(96, 108) =~= field_bits(wn as int, 12));
    assert(w.subrange(108, 128) =~= field_bits(tow as int, 20));
}

/// Word 10 reads back its time offset, unless all the fields of the offset are
/// ones.
pub proof fn law_word10_reads_back(ioda: u32, a0g: i64, a1g: i64, t0g: u32, wn0g: u32, alm: AlmTail10)
    ensures
        word_reading(word10(ioda, a0g, a1g, t0g, wn0g, alm)) == Some(
            InavWord::W10(
                GalWord10 {
                    ioda: (ioda % 16) as u8,
                    ggto: if a0g as int % 65536 == 65535 && a1g as int % 4096 == 4095 && t0g % 256 == 255 && wn0g
                        % 64 == 63 {
                        None
                    } else {
                        Some(
                            Ggto {
                                a0g: wrapped(a0g as int, 16) as i64,
                                a1g: wrapped(a1g as int, 12) as i64,
                                t0g: (3600 * (t0g % 256)) as u32,
                                wn0g: (wn0g % 64) as u16,
                            },
                        )
                    },
                },
            ),
        ),
{
    lemma2_to64();
    let w = word10(ioda, a0g, a1g, t0g, wn0g, alm);
    lemma_fields(10, 6);
    lemma_fields(ioda as int, 4);
    lemma_fields(a0g as int, 16);
    lemma_fields(a1g as int, 12);
    lemma_fields(t0g as int, 8);
    lemma_fields(wn0g as int, 6);
    assert(w.subrange(0, 6) =~= field_bits(10, 6));
    assert(w.subrange(6, 10) =~= field_bits(ioda as int, 4));
    assert(w.subrange(86, 102) =~= field_bits(a0g as int, 16));
    assert(w.subrange(102, 114) =~= field_bits(a1g as int, 12));
    assert(w.subrange(114, 122) =~= field_bits(t0g as int, 8));
    assert(w.subrange(122, 128) =~= field_bits(wn0g as int, 6));
}

// ---------------------------------------------------------------- places
/// Where the fields of a word of type 1 stand: behind the six bits of the type, in
/// this order and of these widths.
pub proof fn law_places_of_word1(
    iodnav: Seq<u8>,
    t0e: Seq<u8>,
    m0: Seq<u8>,
    e: Seq<u8>,
    sqrt_a: Seq<u8>,
    spare: Seq<u8>,
)
    requires
        iodnav.len() == 10,
        t0e.len() == 14,
        m0.len() == 32,
        e.len() == 32,
        sqrt_a.len() == 32,
        spare.len() == 2,
    ensures
        ({
            let w = seq![0u8, 0, 0, 0, 0, 1] + iodnav + t0e + m0 + e + sqrt_a + spare;
            word_reading(w) matches Some(InavWord::W1(x)) && {
                &&& x.iodnav == bits_value(iodnav)
                &&& x.toe == 60 * bits_value(t0e)
                &&& x.m0 == signed_value(m0)
                &&& x.e == bits_value(e)
                &&& x.sqrt_a == bits_value(sqrt_a)
            }
        }),
{
    lemma2_to64();
    let t = seq![0u8, 0, 0, 0, 0, 1];
    let w = t + iodnav + t0e + m0 + e + sqrt_a + spare;
    lemma_type_number(t);
    assert(w.subrange(0, 6) =~= t);
    assert(w.subrange(6, 16) =~= iodnav);
    lemma_value_bound(iodnav);
    assert(w.subrange(16, 30) =~= t0e);
    lemma_value_bound(t0e);
    assert(w.subrange(30, 62) =~= m0);
    lemma_signed_bound(m0);
    assert(w.subrange(62, 94) =~= e);
    lemma_value_bound(e);
    assert(w.subrange(94, 126) =~= sqrt_a);
    lemma_value_bound(sqrt_a);
}

/// Where the fields of a word of type 2 stand: behind the six bits of the type, in
/// this order and of these widths.
pub proof fn law_places_of_word2(
    iodnav: Seq<u8>,
    omega0: Seq<u8>,
    i0: Seq<u8>,
    omega: Seq<u8>,
    idot: Seq<u8>,
    spare: Seq<u8>,
)
    requires
        iodnav.len() == 10,
        omega0.len() == 32,
        i0.len() == 32,
        omega.len() == 32,
        idot.len() == 14,
        spare.len() == 2,
    ensures
        ({
            let w = seq![0u8, 0, 0, 0, 1, 0] + iodnav + omega0 + i0 + omega + idot + spare;
            word_reading(w) matches Some(InavWord::W2(x)) && {
                &&& x.iodnav == bits_value(iodnav)
                &&& x.omega0 == signed_value(omega0)
                &&& x.i0 == signed_value(i0)
                &&& x.omega == signed_value(omega)
                &&& x.idot == signed_value(idot)
            }
        }),
{
    lemma2_to64();
    let t = seq![0u8, 0, 0, 0, 1, 0];
    let w = t + iodnav + omega0 + i0 + omega + idot + spare;
    lemma_type_number(t);
    assert(w.subrange(0, 6) =~= t);
    assert(w.subrange(6, 16) =~= iodnav);
    lemma_value_bound(iodnav);
    assert(w.subrange(16, 48) =~= omega0);
    lemma_signed_bound(omega0);
    assert(w.subrange(48, 80) =~= i0);
    lemma_signed_bound(i0);
    assert(w.subrange(80, 112) =~= omega);
    lemma_signed_bound(omega);
    assert(w.subrange(112, 126) =~= idot);
    lemma_signed_bound(idot);
}

/// Where the fields of a word of type 3 stand: behind the six bits of the type, in
/// this order and of these widths.
pub proof fn law_places_of_word3(
    iodnav: Seq<u8>,
    omega_dot: Seq<u8>,
    delta_n: Seq<u8>,
    cuc: Seq<u8>,
    cus: Seq<u8>,
    crc: Seq<u8>,
    crs: Seq<u8>,
    sisa: Seq<u8>,
)
    requires
        iodnav.len() == 10,
        omega_dot.len() == 24,
        delta_n.len() == 16,
        cuc.len() == 16,
        cus.len() == 16,
        crc.len() == 16,
        crs.len() == 16,
        sisa.len() == 8,
    ensures
        ({
            let w = seq![0u8, 0, 0, 0, 1, 1] + iodnav + omega_dot + delta_n + cuc + cus + crc + crs + sisa;
            word_reading(w) matches Some(InavWord::W3(x)) && {
                &&& x.iodnav == bits_value(iodnav)
                &&& x.omega_dot == signed_value(omega_dot)
                &&& x.delta_n == signed_value(delta_n)
                &&& x.cuc == signed_value(cuc)
                &&& x.cus == signed_value(cus)
                &&& x.crc == signed_value(crc)
                &&& x.crs == signed_value(crs)
                &&& x.sisa == bits_value(sisa)
            }
        }),
{
    lemma2_to64();
    let t = seq![0u8, 0, 0, 0, 1, 1];
    let w = t + iodnav + omega_dot + delta_n + cuc + cus + crc + crs + sisa;
    lemma_type_number(t);
    assert(w.subrange(0, 6) =~= t);
    assert(w.subrange(6, 16) =~= iodnav);
    lemma_value_bound(iodnav);
    assert(w.subrange(16, 40) =~= omega_dot);
    lemma_signed_bound(omega_dot);
    assert(w.subrange(40, 56) =~= delta_n);
    lemma_signed_bound(delta_n);
    assert(w.subrange(56, 72) =~= cuc);
    lemma_signed_bound(cuc);
    assert(w.subrange(72, 88) =~= cus);
    lemma_signed_bound(cus);
    assert(w.subrange(88, 104) =~= crc);
    lemma_signed_bound(crc);
    assert(w.subrange(104, 120) =~= crs);
    lemma_signed_bound(crs);
    assert(w.subrange(120, 128) =~= sisa);
    lemma_value_bound(sisa);
}

/// Where the fields of a word of type 4 stand: behind the six bits of the type, in
/// this order and of these widths.
pub proof fn law_places_of_word4(
    iodnav: Seq<u8>,
    svid: Seq<u8>,
    cic: Seq<u8>,
    cis: Seq<u8>,
    t0c: Seq<u8>,
    af0: Seq<u8>,
    af1: Seq<u8>,
    af2: Seq<u8>,
    spare: Seq<u8>,
)
    requires
        iodnav.len() == 10,
        svid.len() == 6,
        cic.len() == 16,
        cis.len() == 16,
        t0c.len() == 14,
        af0.len() == 31,
        af1.len() == 21,
        af2.len() == 6,
        spare.len() == 2,
    ensures
        ({
            let w = seq![0u8, 0, 0, 1, 0, 0] + iodnav + svid + cic + cis + t0c + af0 + af1 + af2 + spare;
            word_reading(w) matches Some(InavWord::W4(x)) && {
                &&& x.iodnav == bits_value(iodnav)
                &&& x.svid == bits_value(svid)
                &&& x.cic == signed_value(cic)
                &&& x.cis == signed_value(cis)
                &&& x.toc == 60 * bits_value(t0c)
                &&& x.af0 == signed_value(af0)
                &&& x.af1 == signed_value(af1)
                &&& x.af2 == signed_value(af2)
            }
        }),
{
    lemma2_to64();
    let t = seq![0u8, 0, 0, 1, 0, 0];
    let w = t + iodnav + svid + cic + cis + t0c + af0 + af1 + af2 + spare;
    lemma_type_number(t);
    assert(w.subrange(0, 6) =~= t);
    assert(w.subrange(6, 16) =~= iodnav);
    lemma_value_bound(iodnav);
    assert(w.subrange(16, 22) =~= svid);
    lemma_value_bound(svid);
    assert(w.subrange(22, 38) =~= cic);
    lemma_signed_bound(cic);
    assert(w.subrange(38, 54) =~= cis);
    lemma_signed_bound(cis);
    assert(w.subrange(54, 68) =~= t0c);
    lemma_value_bound(t0c);
    assert(w.subrange(68, 99) =~= af0);
    lemma_signed_bound(af0);
    assert(w.subrange(99, 120) =~= af1);
    lemma_signed_bound(af1);
    assert(w.subrange(120, 126) =~= af2);
    lemma_signed_bound(af2);
}

/// Where the fields of a word of type 5 stand: behind the six bits of the type, in
/// this order and of these widths.
pub proof fn law_places_of_word5(
    ai0: Seq<u8>,
    ai1: Seq<u8>,
    ai2: Seq<u8>,
    regions: Seq<u8>,
    bgd_e1e5a: Seq<u8>,
    bgd_e1e5b: Seq<u8>,
    e5b_hs: Seq<u8>,
    e1b_hs: Seq<u8>,
    e5b_dvs: Seq<u8>,
    e1b_dvs: Seq<u8>,
    wn: Seq<u8>,
    tow: Seq<u8>,
    spare: Seq<u8>,
)
    requires
        ai0.len() == 11,
        ai1.len() == 11,
        ai2.len() == 14,
        regions.len() == 5,
        bgd_e1e5a.len() == 10,
        bgd_e1e5b.len() == 10,
        e5b_hs.len() == 2,
        e1b_hs.len() == 2,
        e5b_dvs.len() == 1,
        e1b_dvs.len() == 1,
        wn.len() == 12,
        tow.len() == 20,
        spare.len() == 23,
    ensures
        ({
            let w = seq![0u8, 0, 0, 1, 0, 1] + ai0 + ai1 + ai2 + regions + bgd_e1e5a + bgd_e1e5b + e5b_hs + e1b_hs + e5b_dvs + e1b_dvs + wn + tow + spare;
            word_reading(w) matches Some(InavWord::W5(x)) && {
                &&& x.ai0 == bits_value(ai0)
                &&& x.ai1 == signed_value(ai1)
                &&& x.ai2 == signed_value(ai2)
                &&& x.bgd_e1e5a == signed_value(bgd_e1e5a)
                &&& x.bgd_e1e5b == signed_value(bgd_e1e5b)
                &&& x.e5b_hs == bits_value(e5b_hs)
                &&& x.e1b_hs == bits_value(e1b_hs)
                &&& x.e5b_dvs == bits_value(e5b_dvs)
                &&& x.e1b_dvs == bits_value(e1b_dvs)
                &&& x.wn == bits_value(wn)
                &&& x.tow == bits_value(tow)
            }
        }),
{
    lemma2_to64();
    let t = seq![0u8, 0, 0, 1, 0, 1];
    let w = t + ai0 + ai1 + ai2 + regions + bgd_e1e5a + bgd_e1e5b + e5b_hs + e1b_hs + e5b_dvs + e1b_dvs + wn + tow + spare;
    lemma_type_number(t);
    assert(w.subrange(0, 6) =~= t);
    assert(w.subrange(6, 17) =~= ai0);
    lemma_value_bound(ai0);
    assert(w.subrange(17, 28) =~= ai1);
    lemma_signed_bound(ai1);
    assert(w.subrange(28, 42) =~= ai2);
    lemma_signed_bound(ai2);
    assert(w.subrange(47, 57) =~= bgd_e1e5a);
    lemma_signed_bound(bgd_e1e5a);
    assert(w.subrange(57, 67) =~= bgd_e1e5b);
    lemma_signed_bound(bgd_e1e5b);
    assert(w.subrange(67, 69) =~= e5b_hs);
    lemma_value_bound(e5b_hs);
    assert(w.subrange(69, 71) =~= e1b_hs);
    lemma_value_bound(e1b_hs);
    assert(w.subrange(71, 72) =~= e5b_dvs);
    lemma_value_bound(e5b_dvs);
    assert(w.subrange(72, 73) =~= e1b_dvs);
    lemma_value_bound(e1b_dvs);
    assert(w.subrange(73, 85) =~= wn);
    lemma_value_bound(wn);
    assert(w.subrange(85, 105) =~= tow);
    lemma_value_bound(tow);
}

/// Where the fields of a word of type 6 stand: behind the six bits of the type, in
/// this order and of these widths.
pub proof fn law_places_of_word6(
    a0: Seq<u8>,
    a1: Seq<u8>,
    dt_ls: Seq<u8>,
    t0t: Seq<u8>,
    wn0t: Seq<u8>,
    wn_lsf: Seq<u8>,
    dn: Seq<u8>,
    dt_lsf: Seq<u8>,
    tow: Seq<u8>,
    spare: Seq<u8>,
)
    requires
        a0.len() == 32,
        a1.len() == 24,
        dt_ls.len() == 8,
        t0t.len() == 8,
        wn0t.len() == 8,
        wn_lsf.len() == 8,
        dn.len() == 3,
        dt_lsf.len() == 8,
        tow.len() == 20,
        spare.len() == 3,
    ensures
        ({
            let w = seq![0u8, 0, 0, 1, 1, 0] + a0 + a1 + dt_ls + t0t + wn0t + wn_lsf + dn + dt_lsf + tow + spare;
            word_reading(w) matches Some(InavWord::W6(x)) && {
                &&& x.a0 == signed_value(a0)
                &&& x.a1 == signed_value(a1)
                &&& x.dt_ls == signed_value(dt_ls)
                &&& x.t0t == 3600 * bits_value(t0t)
                &&& x.wn0t == bits_value(wn0t)
                &&& x.wn_lsf == bits_value(wn_lsf)
                &&& x.dn == bits_value(dn)
                &&& x.dt_lsf == signed_value(dt_lsf)
                &&& x.tow == bits_value(tow)
            }
        }),
{
    lemma2_to64();
    let t = seq![0u8, 0, 0, 1, 1, 0];
    let w = t + a0 + a1 + dt_ls + t0t + wn0t + wn_lsf + dn + dt_lsf + tow + spare;
    lemma_type_number(t);
    assert(w.subrange(0, 6) =~= t);
    assert(w.subrange(6, 38) =~= a0);
    lemma_signed_bound(a0);
    assert(w.subrange(38, 62) =~= a1);
    lemma_signed_bound(a1);
    assert(w.subrange(62, 70) =~= dt_ls);
    lemma_signed_bound(dt_ls);
    assert(w.subrange(70, 78) =~= t0t);
    lemma_value_bound(t0t);
    assert(w.subrange(78, 86) =~= wn0t);
    lemma_value_bound(wn0t);
    assert(w.subrange(86, 94) =~= wn_lsf);
    lemma_value_bound(wn_lsf);
    assert(w.subrange(94, 97) =~= dn);
    lemma_value_bound(dn);
    assert(w.subrange(97, 105) =~= dt_lsf);
    lemma_signed_bound(dt_lsf);
    assert(w.subrange(105, 125) =~= tow);
    lemma_value_bound(tow);
}

/// Where the time of a word of type 0 stands: the last twelve bits but twenty hold the
/// week, the last twenty the time of week, if the two bits behind the type are one
/// and zero.
pub proof fn law_places_of_word0(flag: Seq<u8>, spare: Seq<u8>, wn: Seq<u8>, tow: Seq<u8>)
    requires
        flag.len() == 2,
        is_bits(flag),
        spare.len() == 88,
        wn.len() == 12,
        tow.len() == 20,
    ensures
        ({
            let w = seq![0u8, 0, 0, 0, 0, 0] + flag + spare + wn + tow;
            word_reading(w) matches Some(InavWord::W0(x)) && {
                &&& x.time is Some <==> flag[0] == 1 && flag[1] == 0
                &&& x.time matches Some(t) ==> t.0 == bits_value(wn) && t.1 == bits_value(tow)
            }
        }),
{
    lemma2_to64();
    let t = seq![0u8, 0, 0, 0, 0, 0];
    let w = t + flag + spare + wn + tow;
    lemma_type_number(t);
    lemma_two_bits(flag);
    assert(w.subrange(0, 6) =~= t);
    assert(w.subrange(6, 8) =~= flag);
    assert(w.subrange(96, 108) =~= wn);
    assert(w.subrange(108, 128) =~= tow);
    lemma_value_bound(wn);
    lemma_value_bound(tow);
}

proof fn lemma_two_bits(s: Seq<u8>)
    requires
        s.len() == 2,
        is_bits(s),
    ensures
        bits_value(s) == 2 * s[0] + s[1],
{
    reveal_with_fuel(bits_value, 3);
    assert(s[0] <= 1 && s[1] <= 1);
}

/// Where the time offset of a word of type 10 stands: in the last 42 bits. There is
/// none exactly if they are all ones.
pub proof fn law_places_of_word10(
    ioda: Seq<u8>,
    almanac: Seq<u8>,
    a0g: Seq<u8>,
    a1g: Seq<u8>,
    t0g: Seq<u8>,
    wn0g: Seq<u8>,
)
    requires
        ioda.len() == 4,
        almanac.len() == 76,
        a0g.len() == 16,
        a1g.len() == 12,
        t0g.len() == 8,
        wn0g.len() == 6,
        is_bits(a0g + a1g + t0g + wn0g),
    ensures
        ({
            let w = seq![0u8, 0, 1, 0, 1, 0] + ioda + almanac + a0g + a1g + t0g + wn0g;
            word_reading(w) matches Some(InavWord::W10(x)) && {
                &&& x.ioda == bits_value(ioda)
                &&& x.ggto is None <==> forall|i: int|
                    0 <= i < 42 ==> #[trigger] (a0g + a1g + t0g + wn0g)[i] == 1
                &&& x.ggto matches Some(g) ==> {
                    &&& g.a0g == signed_value(a0g)
                    &&& g.a1g == signed_value(a1g)
                    &&& g.t0g == 3600 * bits_value(t0g)
                    &&& g.wn0g == bits_value(wn0g)
                }
            }
        }),
{
    lemma2_to64();
    let t = seq![0u8, 0, 1, 0, 1, 0];
    let w = t + ioda + almanac + a0g + a1g + t0g + wn0g;
    let all = a0g + a1g + t0g + wn0g;
    lemma_type_number(t);
    assert(w.subrange(0, 6) =~= t);
    assert(w.subrange(6, 10) =~= ioda);
    assert(w.subrange(86, 102) =~= a0g);
    assert(w.subrange(102, 114) =~= a1g);
    assert(w.subrange(114, 122) =~= t0g);
    assert(w.subrange(122, 128) =~= wn0g);
    lemma_value_bound(ioda);
    lemma_value_bound(t0g);
    lemma_value_bound(wn0g);
    lemma_signed_bound(a0g);
    lemma_signed_bound(a1g);
    assert forall|i: int| 0 <= i < 16 implies #[trigger] a0g[i] == all[i] && a0g[i] <= 1 by {
        assert(all[i] <= 1);
    }
    assert forall|i: int| 0 <= i < 12 implies #[trigger] a1g[i] == all[16 + i] && a1g[i] <= 1 by {
        assert(all[16 + i] <= 1);
    }
    assert forall|i: int| 0 <= i < 8 implies #[trigger] t0g[i] == all[28 + i] && t0g[i] <= 1 by {
        assert(all[28 + i] <= 1);
    }
    assert forall|i: int| 0 <= i < 6 implies #[trigger] wn0g[i] == all[36 + i] && wn0g[i] <= 1 by {
        assert(all[36 + i] <= 1);
    }
    lemma_all_ones(a0g);
    lemma_all_ones(a1g);
    lemma_all_ones(t0g);
    lemma_all_ones(wn0g);
    if ggto_absent(w) {
        assert forall|i: int| 0 <= i < 42 implies #[trigger] all[i] == 1 by {
            if i < 16 {
                assert(a0g[i] == 1);
            } else if i < 28 {
                assert(a1g[i - 16] == 1);
            } else if i < 36 {
                assert(t0g[i - 28] == 1);
            } else {
                assert(wn0g[i - 36] == 1);
            }
        }
    }
}

/// A run of bits has the largest value exactly if all of them are set.
proof fn lemma_all_ones(s: Seq<u8>)
    requires
        is_bits(s),
    ensures
        bits_value(s) == pow2(s.len()) - 1 <==> forall|i: int| 0 <= i < s.len() ==> #[trigger] s[i] == 1,
    decreases s.len(),
{
    lemma2_to64();
    if s.len() > 0 {
        let t = s.drop_last();
        lemma_all_ones(t);
        lemma_value_bound(t);
        vstd::arithmetic::power2::lemma_pow2_unfold(s.len());
        assert(s[s.len() - 1] <= 1);
        if forall|i: int| 0 <= i < s.len() ==> #[trigger] s[i] == 1 {
            assert forall|i: int| 0 <= i < t.len() implies #[trigger] t[i] == 1 by {
                assert(s[i] == 1);
            }
        }
        if bits_value(s) == pow2(s.len()) - 1 {
            assert forall|i: int| 0 <= i < s.len() implies #[trigger] s[i] == 1 by {
                if i < t.len() {
                    assert(t[i] == 1);
                }
            }
        }
    }
}

proof fn lemma_type_number(t: Seq<u8>)
    requires
        t.len() == 6,
        is_bits(t),
    ensures
        bits_value(t) == 32 * t[0] + 16 * t[1] + 8 * t[2] + 4 * t[3] + 2 * t[4] + t[5],
{
    reveal_with_fuel(bits_value, 7);
    assert(t[0] <= 1 && t[1] <= 1 && t[2] <= 1 && t[3] <= 1 && t[4] <= 1 && t[5] <= 1);
}

// ------------------------------------------------------------------ bits
fn hex_char(v: u8) -> (c: char)
    requires
        v < 16,
    ensures
        c == hex_digit(v as int),
{
    if v == 0 { '0' } else if v == 1 { '1' } else if v == 2 { '2' } else if v == 3 { '3' } else if v == 4 { '4' }
    else if v == 5 { '5' } else if v == 6 { '6' } else if v == 7 { '7' } else if v == 8 { '8' } else if v == 9 { '9' }
    else if v == 10 { 'a' } else if v == 11 { 'b' } else if v == 12 { 'c' } else if v == 13 { 'd' }
    else if v == 14 { 'e' } else { 'f' }
}

fn bit_at(bits: &[u8], i: usize) -> (b: u8)
    ensures
        b == bit_or_zero(bits@, i as int),
        b <= 1,
{
    if i < bits.len() {
        bits[i] % 2
    } else {
        0
    }
}

/// Bits as lower-case hexadecimal, filled up to whole bytes with zeros.
pub fn bits_to_hex(bits: &[u8]) -> (s: String)
    ensures
        s@ == hex_text(bits@),
{
    let len: usize = bits.len();
    let n: usize = 2 * (len / 8 + if len % 8 != 0 { 1 } else { 0 });
    let ghost all = hex_text(bits@);
    let mut s: String = String::new();
    let mut j: usize = 0;
    while j < n
        invariant
            j <= n,
            bits@.len() <= usize::MAX,
            n == 2 * ((bits@.len() + 7) / 8),
            all == hex_text(bits@),
            s@ == all.take(j as int),
        decreases n - j,
    {
        let v: u8 = 8 * bit_at(bits, 4 * j) + 4 * bit_at(bits, 4 * j + 1) + 2 * bit_at(bits, 4 * j + 2) + bit_at(
            bits,
            4 * j + 3,
        );
        push_char(&mut s, hex_char(v));
        assert(all[j as int] == hex_digit(nibble(bits@, j as int)));
        assert(s@ =~= all.take(j + 1));
        j += 1;
    }
    assert(all.take(n as int) =~= all);
    s
}

fn hex_digit_value(c: char) -> (v: u8)
    requires
        hex_value(c) is Some,
    ensures
        v as int == hex_value(c)->0,
        v < 16,
{
    let u: u32 = c as u32;
    if c >= '0' && c <= '9' {
        (u - 48) as u8
    } else if c >= 'a' && c <= 'f' {
        (u - 87) as u8
    } else {
        (u - 55) as u8
    }
}

/// The first `nbits` bits of a hexadecimal string.
pub fn hex_to_bits(hex: &str, nbits: usize) -> (bits: Vec<u8>)
    requires
        is_hex(hex@),
    ensures
        bits@ == bits_of_hex(hex@, nbits as int),
{
    let h: Vec<char> = chars_of(hex);
    let n: usize = if h.len() <= nbits / 4 { 4 * h.len() } else { nbits };
    let mut bits: Vec<u8> = Vec::new();
    let mut i: usize = 0;
    while i < n
        invariant
            is_hex(hex@),
            h@ == hex@,
            i <= n <= 4 * h@.len(),
            n <= nbits,
            n == bits_of_hex(hex@, nbits as int).len(),
            bits@ == bits_of_hex(hex@, nbits as int).take(i as int),
        decreases n - i,
    {
        let v: u8 = hex_digit_value(h[i / 4]);
        let k: usize = i % 4;
        let b: u8 = if k == 0 {
            (v / 8) % 2
        } else if k == 1 {
            (v / 4) % 2
        } else if k == 2 {
            (v / 2) % 2
        } else {
            v % 2
        };
        bits.push(b);
        assert(bits@ =~= bits_of_hex(hex@, nbits as int).take(i + 1));
        i += 1;
    }
    assert(bits_of_hex(hex@, nbits as int).take(n as int) =~= bits_of_hex(hex@, nbits as int));
    bits
}

/// Interleaves the 240 symbols of a page part.
pub fn interleave<T: Copy>(sym: &[T]) -> (out: Vec<T>)
    requires
        sym@.len() == 240,
    ensures
        out@ == page_interleaved(sym@),
{
    let mut out: Vec<T> = Vec::new();
    let mut k: usize = 0;
    while k < 240
        invariant
            sym@.len() == 240,
            k <= 240,
            out@ == page_interleaved(sym@).take(k as int),
        decreases 240 - k,
    {
        out.push(sym[8 * (k % 30) + k / 30]);
        assert(out@ =~= page_interleaved(sym@).take(k + 1));
        k += 1;
    }
    assert(page_interleaved(sym@).take(240) =~= page_interleaved(sym@));
    out
}

/// De-interleaves the 240 symbols of a page part.
pub fn deinterleave<T: Copy>(sym: &[T]) -> (out: Vec<T>)
    requires
        sym@.len() == 240,
    ensures
        out@ == page_deinterleaved(sym@),
{
    let mut out: Vec<T> = Vec::new();
    let mut k: usize = 0;
    while k < 240
        invariant
            sym@.len() == 240,
            k <= 240,
            out@ == page_deinterleaved(sym@).take(k as int),
        decreases 240 - k,
    {
        out.push(sym[30 * (k % 8) + k / 8]);
        assert(out@ =~= page_deinterleaved(sym@).take(k + 1));
        k += 1;
    }
    assert(page_deinterleaved(sym@).take(240) =~= page_deinterleaved(sym@));
    out
}

fn push_all(v: &mut Vec<u8>, s: &[u8], from: usize, to: usize)
    requires
        from <= to <= s@.len(),
    ensures
        final(v)@ == old(v)@ + s@.subrange(from as int, to as int),
{
    let ghost before = v@;
    let mut i: usize = from;
    assert(before + s@.subrange(from as int, from as int) == before);
    while i < to
        invariant
            from <= i <= to <= s@.len(),
            v@ == before + s@.subrange(from as int, i as int),
        decreases to - i,
    {
        v.push(s[i]);
        assert(v@ =~= before + s@.subrange(from as int, i + 1));
        i += 1;
    }
}

fn push_zeros(v: &mut Vec<u8>, n: usize)
    ensures
        final(v)@ == old(v)@ + zeros(n as nat),
{
    let ghost before = v@;
    let mut i: usize = 0;
    assert(before + zeros(0) == before);
    while i < n
        invariant
            i <= n,
            v@ == before + zeros(i as nat),
        decreases n - i,
    {
        v.push(0);
        assert(v@ =~= before + zeros((i + 1) as nat));
        i += 1;
    }
}

// ----------------------------------------------------------------- pages
/// The even and odd parts of a page that carries a word.
pub fn build_page_parts(word: &[u8], extras: &PageExtras, page_type: u8) -> (r: (Vec<u8>, Vec<u8>))
    requires
        word@.len() == 128,
    ensures
        r.0@ == even_part(word@, page_type),
        r.1@ == odd_part(word@, *extras, page_type),
        r.0@.len() == 120,
        r.1@.len() == 120,
        is_bits(word@) && extras_are_bits(*extras) ==> is_bits(r.0@) && is_bits(r.1@),
{
    proof {
        lemma_page_flag(page_type);
        lemma_built_page(word@, *extras, page_type);
    }
    let mut even: Vec<u8> = Vec::new();
    even.push(0);
    even.push(page_type & 1);
    assert(even@ =~= seq![0u8, page_type & 1]);
    push_all(&mut even, word, 0, 112);
    assert(word@.subrange(0, 112) == word@.take(112));
    assert(even@ =~= even_body(word@, page_type));
    let mut odd: Vec<u8> = Vec::new();
    odd.push(1);
    odd.push(page_type & 1);
    assert(odd@ =~= seq![1u8, page_type & 1]);
    push_all(&mut odd, word, 112, 128);
    assert(word@.subrange(112, 128) == word@.skip(112));
    push_all(&mut odd, extras.osnma.as_slice(), 0, 40);
    assert(extras.osnma@.subrange(0, 40) =~= extras.osnma@);
    push_all(&mut odd, extras.sar.as_slice(), 0, 22);
    assert(extras.sar@.subrange(0, 22) =~= extras.sar@);
    push_all(&mut odd, extras.spare.as_slice(), 0, 2);
    assert(extras.spare@.subrange(0, 2) =~= extras.spare@);
    assert(odd@ == odd_body(word@, *extras, page_type));
    let mut span: Vec<u8> = Vec::new();
    push_all(&mut span, even.as_slice(), 0, 114);
    push_all(&mut span, odd.as_slice(), 0, 82);
    assert(span@ =~= even_body(word@, page_type) + odd_body(word@, *extras, page_type));
    let crc: u32 = crc24q(span.as_slice());
    let ghost body = odd@;
    let mut i: u32 = 0;
    assert(body + crc24q_bits(crc).take(0) =~= body);
    while i < 24
        invariant
            i <= 24,
            odd@ == body + crc24q_bits(crc).take(i as int),
        decreases 24 - i,
    {
        let b: u8 = ((crc >> (23 - i)) & 1) as u8;
        assert(crc24q_bits(crc)[i as int] == b);
        odd.push(b);
        assert(odd@ =~= body + crc24q_bits(crc).take(i + 1));
        i += 1;
    }
    assert(crc24q_bits(crc).take(24) =~= crc24q_bits(crc));
    push_all(&mut odd, extras.ssp.as_slice(), 0, 8);
    assert(extras.ssp@.subrange(0, 8) =~= extras.ssp@);
    push_zeros(&mut even, 6);
    push_zeros(&mut odd, 6);
    proof {
        if is_bits(word@) && extras_are_bits(*extras) {
            lemma_parts_are_bits(word@, *extras, page_type);
        }
    }
    (even, odd)
}

proof fn lemma_crc_bit(crc: u32, k: u32)
    by (bit_vector)
    ensures
        ((crc >> k) & 1) as u8 <= 1,
{
}

proof fn lemma_parts_are_bits(word: Seq<u8>, extras: PageExtras, page_type: u8)
    requires
        word.len() == 128,
        is_bits(word),
        extras_are_bits(extras),
    ensures
        is_bits(even_part(word, page_type)),
        is_bits(odd_part(word, extras, page_type)),
{
    lemma_page_flag(page_type);
    let c = crc24q_bits(page_crc(word, extras, page_type));
    assert forall|i: int| 0 <= i < c.len() implies #[trigger] c[i] <= 1 by {
        lemma_crc_bit(page_crc(word, extras, page_type), (23 - i) as u32);
    }
}

/// The symbols of one page part, as bits.
pub fn encode_part(part: &[u8], invert_g2: bool) -> (out: Vec<u8>)
    requires
        part@.len() == 120,
        is_bits(part@),
    ensures
        out@ == part_symbols(part@, invert_g2),
        out@.len() == 250,
{
    let mut out: Vec<u8> = Vec::new();
    push_all(&mut out, SYNC.as_slice(), 0, 10);
    assert(SYNC@.subrange(0, 10) =~= SYNC@);
    let coded: Vec<u8> = conv_encode(part, invert_g2, 0);
    let inter: Vec<u8> = interleave(coded.as_slice());
    push_all(&mut out, inter.as_slice(), 0, 240);
    assert(inter@.subrange(0, 240) =~= inter@);
    assert(out@ =~= part_symbols(part@, invert_g2));
    out
}

/// The symbols of a whole page, as bits.
pub fn encode_page(word: &[u8], extras: &PageExtras, page_type: u8, invert_g2: bool) -> (out: Vec<u8>)
    requires
        word@.len() == 128,
        is_bits(word@),
        extras_are_bits(*extras),
    ensures
        out@ == part_symbols(even_part(word@, page_type), invert_g2) + part_symbols(
            odd_part(word@, *extras, page_type),
            invert_g2,
        ),
        out@.len() == 500,
{
    let parts = build_page_parts(word, extras, page_type);
    let mut out: Vec<u8> = encode_part(parts.0.as_slice(), invert_g2);
    let second: Vec<u8> = encode_part(parts.1.as_slice(), invert_g2);
    push_all(&mut out, second.as_slice(), 0, 250);
    assert(second@.subrange(0, 250) =~= second@);
    out
}

fn sync_matches(signs: &[i8], i: usize, polarity: i8) -> (r: bool)
    requires
        i + 10 <= signs@.len(),
        polarity == 1 || polarity == -1,
    ensures
        r == sync_at(signs@, i as int, polarity as int),
{
    let len: usize = signs.len();
    let mut k: usize = 0;
    while k < 10
        invariant
            len == signs@.len(),
            i + 10 <= len,
            polarity == 1 || polarity == -1,
            k <= 10,
            forall|j: int| 0 <= j < k ==> #[trigger] signs@[i + j] * polarity * (1 - 2 * SYNC@[j]) > 0,
        decreases 10 - k,
    {
        let s: i8 = signs[i + k];
        let flip: bool = (SYNC[k] == 1) != (polarity == -1);
        proof {
            assert(SYNC@[k as int] == 0 || SYNC@[k as int] == 1);
            let (a, p, w) = (s as int, polarity as int, 1 - 2 * SYNC@[k as int]);
            assert(a * p * w == (if flip { -a } else { a })) by (nonlinear_arith)
                requires
                    p == 1 || p == -1,
                    w == 1 || w == -1,
                    flip == ((w == -1) != (p == -1)),
            ;
        }
        if flip {
            if s >= 0 {
                assert(signs@[i + k] * polarity * (1 - 2 * SYNC@[k as int]) <= 0);
                return false;
            }
        } else if s <= 0 {
            assert(signs@[i + k] * polarity * (1 - 2 * SYNC@[k as int]) <= 0);
            return false;
        }
        k += 1;
    }
    true
}

/// First sync pattern at or after `start`, and its polarity. Symbols are given
/// by their sign.
pub fn find_sync(signs: &[i8], start: usize) -> (r: Option<(usize, i8)>)
    ensures
        r is None ==> forall|i: int| i >= start ==> !#[trigger] any_sync_at(signs@, i),
        r matches Some(hit) ==> hit.0 >= start && sync_at(signs@, hit.0 as int, hit.1 as int) && (hit.1 == 1 || hit.1
            == -1) && forall|i: int| start <= i < hit.0 ==> !#[trigger] any_sync_at(signs@, i),
{
    let len: usize = signs.len();
    if len < 10 {
        return None;
    }
    let mut i: usize = start;
    while i <= len - 10
        invariant
            len == signs@.len(),
            len >= 10,
            start <= i,
            forall|k: int| start <= k < i ==> !#[trigger] any_sync_at(signs@, k),
        decreases len - i,
    {
        if sync_matches(signs, i, 1) {
            return Some((i, 1));
        }
        if sync_matches(signs, i, -1) {
            return Some((i, -1));
        }
        i += 1;
    }
    None
}

/// The sync pattern cannot stand at one place in both polarities.
pub proof fn law_polarity_is_unambiguous(signs: Seq<i8>, i: int)
    ensures
        !(sync_at(signs, i, 1) && sync_at(signs, i, -1)),
{
    if sync_at(signs, i, 1) && sync_at(signs, i, -1) {
        let a = signs[i + 0] as int;
        let w = 1 - 2 * SYNC@[0];
        assert(a * 1 * w > 0);
        assert(a * -1 * w > 0);
        assert(false) by (nonlinear_arith)
            requires
                a * 1 * w > 0,
                a * -1 * w > 0,
        ;
    }
}

/// Checks the two parts of a page and takes the word out of it.
///
/// A page passes its CRC only with a plausible number of ones as well: a stream
/// of zeros checks to zero.
pub fn check_page(even: &[u8], odd: &[u8]) -> (c: PageCheck)
    requires
        even@.len() == 120,
        odd@.len() == 120,
    ensures
        c.crc_ok == page_crc_ok(even@, odd@),
        c.weight_ok == span_weight_ok(even@, odd@),
        c.eo_ok == even_odd_ok(even@, odd@),
        c.page_type == even@[1],
        c.alert == (c.crc_ok && c.eo_ok && c.page_type == 1),
        c.word is Some <==> page_word(even@, odd@) is Some,
        c.word matches Some(w) ==> w@ == page_word(even@, odd@)->0,
{
    let mut span: Vec<u8> = Vec::new();
    push_all(&mut span, even, 0, 114);
    push_all(&mut span, odd, 0, 82);
    assert(span@ =~= checked_span(even@, odd@));
    let w: usize = ones_in(span.as_slice());
    push_all(&mut span, odd, 82, 106);
    let weight_ok: bool = MIN_SPAN_WEIGHT <= w && w <= CRC_SPAN_BITS - MIN_SPAN_WEIGHT;
    let crc_ok: bool = crc24q(span.as_slice()) == 0 && weight_ok;
    let eo_ok: bool = even[0] == 0 && odd[0] == 1;
    let page_type: u8 = even[1];
    let alert: bool = crc_ok && eo_ok && page_type == 1;
    let word: Option<Vec<u8>> = if crc_ok && eo_ok && page_type == 0 && odd[1] == 0 {
        let mut wbits: Vec<u8> = Vec::new();
        push_all(&mut wbits, even, 2, 114);
        push_all(&mut wbits, odd, 2, 18);
        assert(wbits@ =~= even@.subrange(2, 114) + odd@.subrange(2, 18));
        Some(wbits)
    } else {
        None
    };
    PageCheck { crc_ok, weight_ok, eo_ok, page_type, alert, word }
}

fn ones_in(s: &[u8]) -> (w: usize)
    requires
        s@.len() <= 1000,
    ensures
        w == weight(s@),
{
    let mut w: usize = 0;
    let mut i: usize = 0;
    while i < s.len()
        invariant
            i <= s@.len() <= 1000,
            w <= i,
            w == weight(s@.take(i as int)),
        decreases s@.len() - i,
    {
        assert(s@.take(i + 1).drop_last() == s@.take(i as int));
        w += (s[i] % 2) as usize;
        i += 1;
    }
    assert(s@.take(s@.len() as int) == s@);
    w
}

/// Where a scan for pages goes on after a sync pattern at `at`: past the page
/// if it was good, else one symbol further.
pub fn resume_after(at: usize, check: Option<&PageCheck>) -> (next: usize)
    requires
        at + 500 <= usize::MAX,
    ensures
        next == (if check is Some && check->0.crc_ok && check->0.eo_ok {
            at + PAGE_SYMS
        } else {
            at + 1
        }),
{
    match check {
        Some(c) => {
            if c.crc_ok && c.eo_ok {
                at + PAGE_SYMS
            } else {
                at + 1
            }
        },
        None => at + 1,
    }
}

// ----------------------------------------------------------------- words
proof fn lemma_widths()
    ensures
        pow2(1) == 2,
        pow2(2) == 4,
        pow2(3) == 8,
        pow2(4) == 16,
        pow2(6) == 64,
        pow2(7) == 128,
        pow2(8) == 256,
        pow2(10) == 1024,
        pow2(11) == 2048,
        pow2(12) == 4096,
        pow2(14) == 16384,
        pow2(16) == 65536,
        pow2(20) == 0x10_0000,
        pow2(32) == 0x1_0000_0000,
{
    lemma2_to64();
}

/// Reads a 128-bit word.
pub fn parse_word(word: &[u8]) -> (r: Option<InavWord>)
    requires
        word@.len() == 128,
    ensures
        r == word_reading(word@),
{
    proof {
        lemma_widths();
    }
    let wt: u64 = ubits(word, 0, 6);
    if wt == 1 {
        Some(
            InavWord::W1(
                GalWord1 {
                    iodnav: ubits(word, 6, 10) as u16,
                    toe: 60 * (ubits(word, 16, 14) as u32),
                    m0: sbits(word, 30, 32),
                    e: ubits(word, 62, 32),
                    sqrt_a: ubits(word, 94, 32),
                },
            ),
        )
    } else if wt == 2 {
        Some(
            InavWord::W2(
                GalWord2 {
                    iodnav: ubits(word, 6, 10) as u16,
                    omega0: sbits(word, 16, 32),
                    i0: sbits(word, 48, 32),
                    omega: sbits(word, 80, 32),
                    idot: sbits(word, 112, 14),
                },
            ),
        )
    } else if wt == 3 {
        Some(
            InavWord::W3(
                GalWord3 {
                    iodnav: ubits(word, 6, 10) as u16,
                    omega_dot: sbits(word, 16, 24),
                    delta_n: sbits(word, 40, 16),
                    cuc: sbits(word, 56, 16),
                    cus: sbits(word, 72, 16),
                    crc: sbits(word, 88, 16),
                    crs: sbits(word, 104, 16),
                    sisa: ubits(word, 120, 8) as u8,
                },
            ),
        )
    } else if wt == 4 {
        Some(
            InavWord::W4(
                GalWord4 {
                    iodnav: ubits(word, 6, 10) as u16,
                    svid: ubits(word, 16, 6) as u8,
                    cic: sbits(word, 22, 16),
                    cis: sbits(word, 38, 16),
                    toc: 60 * (ubits(word, 54, 14) as u32),
                    af0: sbits(word, 68, 31),
                    af1: sbits(word, 99, 21),
                    af2: sbits(word, 120, 6),
                },
            ),
        )
    } else if wt == 5 {
        Some(
            InavWord::W5(
                GalWord5 {
                    ai0: ubits(word, 6, 11),
                    ai1: sbits(word, 17, 11),
                    ai2: sbits(word, 28, 14),
                    bgd_e1e5a: sbits(word, 47, 10),
                    bgd_e1e5b: sbits(word, 57, 10),
                    e5b_hs: ubits(word, 67, 2) as u8,
                    e1b_hs: ubits(word, 69, 2) as u8,
                    e5b_dvs: ubits(word, 71, 1) as u8,
                    e1b_dvs: ubits(word, 72, 1) as u8,
                    wn: ubits(word, 73, 12) as u16,
                    tow: ubits(word, 85, 20) as u32,
                },
            ),
        )
    } else if wt == 6 {
        Some(
            InavWord::W6(
                GalWord6 {
                    a0: sbits(word, 6, 32),
                    a1: sbits(word, 38, 24),
                    dt_ls: sbits(word, 62, 8) as i32,
                    t0t: 3600 * (ubits(word, 70, 8) as u32),
                    wn0t: ubits(word, 78, 8) as u16,
                    wn_lsf: ubits(word, 86, 8) as u16,
                    dn: ubits(word, 94, 3) as u8,
                    dt_lsf: sbits(word, 97, 8) as i32,
                    tow: ubits(word, 105, 20) as u32,
                },
            ),
        )
    } else if wt == 0 {
        let time: Option<(u16, u32)> = if ubits(word, 6, 2) == 2 {
            Some((ubits(word, 96, 12) as u16, ubits(word, 108, 20) as u32))
        } else {
            None
        };
        Some(InavWord::W0(GalWord0 { time }))
    } else if wt == 10 {
        let absent: bool = ubits(word, 86, 16) == 0xffff && ubits(word, 102, 12) == 0xfff && ubits(word, 114, 8)
            == 0xff && ubits(word, 122, 6) == 0x3f;
        let ggto: Option<Ggto> = if absent {
            None
        } else {
            Some(
                Ggto {
                    a0g: sbits(word, 86, 16),
                    a1g: sbits(word, 102, 12),
                    t0g: 3600 * (ubits(word, 114, 8) as u32),
                    wn0g: ubits(word, 122, 6) as u16,
                },
            )
        };
        Some(InavWord::W10(GalWord10 { ioda: ubits(word, 6, 4) as u8, ggto }))
    } else {
        None
    }
}

/// Builds word type 1.
pub fn make_word1(iodnav: u32, t0e: u32, m0: i64, e: i64, sqrt_a: i64) -> (w: Vec<u8>)
    ensures
        w@ == word1(iodnav, t0e, m0, e, sqrt_a),
        w@.len() == 128,
{
    let mut w: Vec<u8> = Vec::new();
    push_bits(&mut w, 6, 1);
    assert(w@ =~= field_bits(1, 6));
    push_bits(&mut w, 10, iodnav as i64);
    push_bits(&mut w, 14, t0e as i64);
    push_bits(&mut w, 32, m0);
    push_bits(&mut w, 32, e);
    push_bits(&mut w, 32, sqrt_a);
    push_bits(&mut w, 2, 0);
    w
}

/// Builds word type 2.
pub fn make_word2(iodnav: u32, omega0: i64, i0: i64, omega: i64, idot: i64) -> (w: Vec<u8>)
    ensures
        w@ == word2(iodnav, omega0, i0, omega, idot),
        w@.len() == 128,
{
    let mut w: Vec<u8> = Vec::new();
    push_bits(&mut w, 6, 2);
    assert(w@ =~= field_bits(2, 6));
    push_bits(&mut w, 10, iodnav as i64);
    push_bits(&mut w, 32, omega0);
    push_bits(&mut w, 32, i0);
    push_bits(&mut w, 32, omega);
    push_bits(&mut w, 14, idot);
    push_bits(&mut w, 2, 0);
    w
}

/// Builds word type 3.
pub fn make_word3(
    iodnav: u32,
    omega_dot: i64,
    delta_n: i64,
    cuc: i64,
    cus: i64,
    crc_h: i64,
    crs: i64,
    sisa: u32,
) -> (w: Vec<u8>)
    ensures
        w@ == word3(iodnav, omega_dot, delta_n, cuc, cus, crc_h, crs, sisa),
        w@.len() == 128,
{
    let mut w: Vec<u8> = Vec::new();
    push_bits(&mut w, 6, 3);
    assert(w@ =~= field_bits(3, 6));
    push_bits(&mut w, 10, iodnav as i64);
    push_bits(&mut w, 24, omega_dot);
    push_bits(&mut w, 16, delta_n);
    push_bits(&mut w, 16, cuc);
    push_bits(&mut w, 16, cus);
    push_bits(&mut w, 16, crc_h);
    push_bits(&mut w, 16, crs);
    push_bits(&mut w, 8, sisa as i64);
    w
}

/// Builds word type 4.
pub fn make_word4(
    iodnav: u32,
    svid: u32,
    cic: i64,
    cis: i64,
    t0c: u32,
    af0: i64,
    af1: i64,
    af2: i64,
) -> (w: Vec<u8>)
    ensures
        w@ == word4(iodnav, svid, cic, cis, t0c, af0, af1, af2),
        w@.len() == 128,
{
    let mut w: Vec<u8> = Vec::new();
    push_bits(&mut w, 6, 4);
    assert(w@ =~= field_bits(4, 6));
    push_bits(&mut w, 10, iodnav as i64);
    push_bits(&mut w, 6, svid as i64);
    push_bits(&mut w, 16, cic);
    push_bits(&mut w, 16, cis);
    push_bits(&mut w, 14, t0c as i64);
    push_bits(&mut w, 31, af0);
    push_bits(&mut w, 21, af1);
    push_bits(&mut w, 6, af2);
    push_bits(&mut w, 2, 0);
    w
}

/// Builds word type 5.
pub fn make_word5(
    ai0: u32,
    ai1: i64,
    ai2: i64,
    bgd_e1e5a: i64,
    bgd_e1e5b: i64,
    e5b_hs: u32,
    e1b_hs: u32,
    e5b_dvs: u32,
    e1b_dvs: u32,
    wn: u32,
    tow: u32,
    region: [u8; 5],
) -> (w: Vec<u8>)
    ensures
        w@ == word5(ai0, ai1, ai2, bgd_e1e5a, bgd_e1e5b, e5b_hs, e1b_hs, e5b_dvs, e1b_dvs, wn, tow, region),
        w@.len() == 128,
{
    let mut w: Vec<u8> = Vec::new();
    push_bits(&mut w, 6, 5);
    assert(w@ =~= field_bits(5, 6));
    push_bits(&mut w, 11, ai0 as i64);
    push_bits(&mut w, 11, ai1);
    push_bits(&mut w, 14, ai2);
    push_bits(&mut w, 1, region[0] as i64);
    push_bits(&mut w, 1, region[1] as i64);
    push_bits(&mut w, 1, region[2] as i64);
    push_bits(&mut w, 1, region[3] as i64);
    push_bits(&mut w, 1, region[4] as i64);
    push_bits(&mut w, 10, bgd_e1e5a);
    push_bits(&mut w, 10, bgd_e1e5b);
    push_bits(&mut w, 2, e5b_hs as i64);
    push_bits(&mut w, 2, e1b_hs as i64);
    push_bits(&mut w, 1, e5b_dvs as i64);
    push_bits(&mut w, 1, e1b_dvs as i64);
    push_bits(&mut w, 12, wn as i64);
    push_bits(&mut w, 20, tow as i64);
    push_bits(&mut w, 23, 0);
    w
}

/// Builds word type 6.
pub fn make_word6(
    a0: i64,
    a1: i64,
    dt_ls: i64,
    t0t: u32,
    wn0t: u32,
    wn_lsf: u32,
    dn: u32,
    dt_lsf: i64,
    tow: u32,
) -> (w: Vec<u8>)
    ensures
        w@ == word6(a0, a1, dt_ls, t0t, wn0t, wn_lsf, dn, dt_lsf, tow),
        w@.len() == 128,
{
    let mut w: Vec<u8> = Vec::new();
    push_bits(&mut w, 6, 6);
    assert(w@ =~= field_bits(6, 6));
    push_bits(&mut w, 32, a0);
    push_bits(&mut w, 24, a1);
    push_bits(&mut w, 8, dt_ls);
    push_bits(&mut w, 8, t0t as i64);
    push_bits(&mut w, 8, wn0t as i64);
    push_bits(&mut w, 8, wn_lsf as i64);
    push_bits(&mut w, 3, dn as i64);
    push_bits(&mut w, 8, dt_lsf);
    push_bits(&mut w, 20, tow as i64);
    push_bits(&mut w, 3, 0);
    w
}

/// Builds word type 0.
pub fn make_word0(time_flag: u32, wn: u32, tow: u32) -> (w: Vec<u8>)
    ensures
        w@ == word0(time_flag, wn, tow),
        w@.len() == 128,
{
    let mut w: Vec<u8> = Vec::new();
    push_bits(&mut w, 6, 0);
    assert(w@ =~= field_bits(0, 6));
    push_bits(&mut w, 2, time_flag as i64);
    push_bits(&mut w, 88, 0);
    push_bits(&mut w, 12, wn as i64);
    push_bits(&mut w, 20, tow as i64);
    w
}

/// Builds word type 10.
pub fn make_word10(ioda: u32, a0g: i64, a1g: i64, t0g: u32, wn0g: u32, alm: &AlmTail10) -> (w: Vec<u8>)
    ensures
        w@ == word10(ioda, a0g, a1g, t0g, wn0g, *alm),
        w@.len() == 128,
{
    let mut w: Vec<u8> = Vec::new();
    push_bits(&mut w, 6, 10);
    assert(w@ =~= field_bits(10, 6));
    push_bits(&mut w, 4, ioda as i64);
    push_bits(&mut w, 16, alm.omega0);
    push_bits(&mut w, 11, alm.omega_dot);
    push_bits(&mut w, 16, alm.m0);
    push_bits(&mut w, 16, alm.af0);
    push_bits(&mut w, 13, alm.af1);
    push_bits(&mut w, 2, alm.e5b_hs as i64);
    push_bits(&mut w, 2, alm.e1b_hs as i64);
    push_bits(&mut w, 16, a0g);
    push_bits(&mut w, 12, a1g);
    push_bits(&mut w, 8, t0g as i64);
    push_bits(&mut w, 6, wn0g as i64);
    w
}

/// Puts an ephemeris together from words 1 to 4 of one issue. Word 5 adds the
/// group delay, the health and, where the week is not known otherwise, the week.
pub fn assemble_ephemeris(
    w1: &GalWord1,
    w2: &GalWord2,
    w3: &GalWord3,
    w4: &GalWord4,
    w5: Option<&GalWord5>,
    gst_wn: Option<u16>,
) -> (r: Option<GalEph>)
    ensures
        r == assembled(
            *w1,
            *w2,
            *w3,
            *w4,
            match w5 {
                Some(f) => Some(*f),
                None => None,
            },
            gst_wn,
        ),
{
    if !(w1.iodnav == w2.iodnav && w2.iodnav == w3.iodnav && w3.iodnav == w4.iodnav) {
        return None;
    }
    let mut week: u32 = match gst_wn {
        Some(w) => w as u32 + GST_GPS_WEEK_OFFSET,
        None => 0,
    };
    let mut tgd: i64 = 0;
    let mut health: u8 = 0;
    match w5 {
        Some(f) => {
            tgd = f.bgd_e1e5b;
            health = if f.e1b_hs == 0 && f.e1b_dvs == 0 { 0 } else { (f.e1b_hs << 1) | f.e1b_dvs };
            if gst_wn.is_none() {
                week = f.wn as u32 + GST_GPS_WEEK_OFFSET;
            }
        },
        None => {},
    }
    Some(GalEph { iodnav: w1.iodnav, sisa: w3.sisa, w1: *w1, w2: *w2, w3: *w3, w4: *w4, tgd, health, week })
}

/// Weeks from the reference week of a time offset, which is known modulo 64, to
/// week `wn`: the nearest that fits, between 32 before and 31 after.
pub fn ggto_weeks(wn: u32, wn0g: u16) -> (dw: i64)
    ensures
        -32 <= dw <= 31,
        (wn - wn0g - dw) % 64 == 0,
{
    let a: i64 = (wn % 64) as i64;
    let b: i64 = (wn0g % 64) as i64;
    let mut dw: i64 = a - b;
    if dw < -32 {
        dw += 64;
    } else if dw > 31 {
        dw -= 64;
    }
    dw
}

} // verus!
