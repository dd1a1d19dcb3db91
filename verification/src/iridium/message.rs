//! Iridium message classification and decoding.
//!
//! A demodulated burst starts with a 24-bit access word that says which
//! direction and access scheme it belongs to. What follows is interleaved:
//! symbol pairs are reversed and read out with a stride, so the 32-bit BCH
//! blocks are not contiguous in the received bit stream. Only after
//! de-interleaving can a BCH generator be tried, and the generator that divides
//! cleanly identifies the class. Classification and error correction are the
//! same step.
//!
//! Ring alert and broadcast bursts carry system-level information and are
//! decoded fully. Messaging bursts carry third-party traffic: their structure is
//! reported, and their payload is left packed.
use vstd::prelude::*;
use vstd::string::*;
use super::bch::{bit_of, bit_string_word, bit_word, corrected, degree, distinguishes, error_pattern, gf2_rem,
    gf2_remainder_bits, law_generators_distinguish, correctable, repair, word_bits, HDR, MESSAGING, RINGALERT};
use crate::text::{ascii_text, byte_len, byte_range, bytes_part, char_boundary, chars_before, chars_of, count_before, has_bytes,
    has_prefix, law_boundary_splits, law_byte_len_is_encoded_length, lemma_ascii_bytes, lemma_chars_before, part, push_char,
    string_of};
use vstd::utf8::encode_utf8;

verus! {

pub const ACCESS_DOWNLINK: &'static str = "001100000011000011110011";

pub const ACCESS_UPLINK: &'static str = "110011000011110011111100";

pub const ACCESS_NEXT_DL: &'static str = "110011110011111111111100";

pub const ACCESS_NEXT_UL: &'static str = "001111000000000011111111";

pub const HEADER_MESSAGING: &'static str = "00110011111100110011001111110011";

/// The access words as DQPSK symbols rather than bits.
///
/// The bits are differentially encoded, so one symbol error corrupts a pair of
/// bits; the distance of a damaged access word is therefore taken between
/// symbols.
pub const UW_DOWNLINK: [u8; 12] = [0, 2, 2, 2, 2, 0, 0, 0, 2, 0, 0, 2];

pub const UW_UPLINK: [u8; 12] = [2, 2, 0, 0, 0, 2, 0, 0, 2, 0, 2, 2];

pub const NXT_UW_DOWNLINK: [u8; 12] = [2, 2, 0, 2, 2, 0, 2, 0, 2, 0, 2, 2];

pub const NXT_UW_UPLINK: [u8; 12] = [0, 2, 0, 0, 0, 0, 0, 0, 2, 0, 2, 0];

/// Largest symbol distance still accepted as a unique word.
pub const UW_MAX_ERRORS: u32 = 3;

/// Channel-plan boundaries, in hertz. Simplex traffic (ring alert, messaging)
/// sits above the first, duplex traffic (broadcast) below the second.
pub const F_SIMPLEX_HZ: i64 = 1_626_104_000;

pub const F_DUPLEX_HZ: i64 = 1_625_979_000;

/// How hard to try before calling a burst undecodable.
///
/// `Strict` demands that every BCH block divide its generator exactly. `Harder`
/// accepts blocks that can be repaired, backed by the parity bit, and access
/// words with a few symbol errors; noise gets through it more easily, so it is
/// for callers that validate what they are given.
#[derive(Debug, Clone, Copy, PartialEq, Eq, Structural)]
pub enum Effort {
    Strict,
    Harder,
}

impl Default for Effort {
    fn default() -> (e: Self)
        ensures
            e == Effort::Strict,
    {
        Effort::Strict
    }
}

/// What a burst turned out to be.
#[derive(Debug, Clone, PartialEq, Eq)]
pub enum Class {
    /// ring alert: satellite id, beam id and the satellite's own position
    RingAlert(Ira),
    /// broadcast controller: satellite, beam and acquisition channel plan
    Broadcast(Ibc),
    /// messaging: structure only, payload left packed
    Messaging(Ms),
    /// time / location broadcast
    TimeLocation,
    /// link control word
    Lcw,
    /// an Iridium NEXT access word
    Next,
    /// uplink rather than downlink
    Uplink,
    /// carried a known access word but matched no class
    Unknown,
    /// no recognised access word at all
    NoAccess,
}

impl Class {
    /// Short label of the class.
    pub fn label(&self) -> (r: &'static str)
        ensures
            r@ == (match self {
                Class::RingAlert(_) => "IRA"@,
                Class::Broadcast(_) => "IBC"@,
                Class::Messaging(_) => "MS"@,
                Class::TimeLocation => "TL"@,
                Class::Lcw => "LW"@,
                Class::Next => "NX"@,
                Class::Uplink => "UL"@,
                Class::Unknown => "unknown"@,
                Class::NoAccess => "no-access"@,
            }),
    {
        match self {
            Class::RingAlert(_) => "IRA",
            Class::Broadcast(_) => "IBC",
            Class::Messaging(_) => "MS",
            Class::TimeLocation => "TL",
            Class::Lcw => "LW",
            Class::Next => "NX",
            Class::Uplink => "UL",
            Class::Unknown => "unknown",
            Class::NoAccess => "no-access",
        }
    }
}

/// The contents of a ring-alert frame. Position components are in units of
/// four kilometres from the geocentre.
#[derive(Debug, Clone, PartialEq, Eq)]
pub struct Ira {
    pub sat: u32,
    pub beam: u32,
    pub pos_x: i32,
    pub pos_y: i32,
    pub pos_z: i32,
    /// 90 ms slot index within this satellite and beam
    pub interval: u32,
    pub slot: u32,
    pub eip: u32,
    /// downlink sub-band the broadcast channel is on
    pub bc_sb: u32,
    /// bits corrected by BCH across the frame
    pub corrected: u32,
}

/// The contents of a broadcast-controller frame.
#[derive(Debug, Clone, PartialEq, Eq)]
pub struct Ibc {
    /// header type field
    pub bc_type: u32,
    pub sv_id: u32,
    pub beam_id: u32,
    pub slot: u32,
    pub sv_blocking: u32,
    pub acqu_subband: u32,
    pub acqu_channels: u32,
    pub corrected: u32,
}

/// Structure of a messaging burst. The payload is not unpacked.
#[derive(Debug, Clone, PartialEq, Eq)]
pub struct Ms {
    /// number of 32-bit BCH blocks recovered
    pub blocks: usize,
    /// payload bits recovered after error correction
    pub payload_bits: usize,
    pub corrected: u32,
}

/// Phase step of one symbol: the bit pairs 00, 01, 11, 10 step by 0, 1, 2, 3
/// quarter turns; the pair is read as a two-bit number.
pub open spec fn phase_step(b0: u8, b1: u8) -> u8 {
    let v = (2 * (b0 - '0' as int) + (b1 - '0' as int)) % 4;
    if v == 0 {
        0
    } else if v == 1 {
        1
    } else if v == 2 {
        3
    } else {
        2
    }
}

/// Whether each pair of bytes reads as a number that a byte can hold.
pub open spec fn pairs_fit(b: Seq<u8>) -> bool {
    forall|k: int|
        0 <= k < b.len() / 2 ==> '0' as int <= #[trigger] b[2 * k] && '0' as int <= b[2 * k + 1] && 2 * (b[2 * k]
            - '0' as int) + (b[2 * k + 1] - '0' as int) <= 255
}

/// Absolute symbol `k` of a differentially encoded bit string, given its bytes:
/// the phase steps up to there, added up modulo four.
pub open spec fn dqpsk_symbol(b: Seq<u8>, k: int) -> u8
    decreases k,
{
    let step = phase_step(b[2 * k], b[2 * k + 1]);
    if k <= 0 {
        step
    } else {
        ((dqpsk_symbol(b, k - 1) + step) % 4) as u8
    }
}

/// The absolute symbols of a bit string, given its bytes.
pub open spec fn dqpsk_symbols(b: Seq<u8>) -> Seq<u8> {
    Seq::new((b.len() / 2) as nat, |k: int| dqpsk_symbol(b, k))
}

/// Number of places among the first `n` in which two sequences differ.
pub open spec fn differences(a: Seq<u8>, b: Seq<u8>, n: int) -> nat
    decreases n,
{
    if n <= 0 {
        0
    } else {
        differences(a, b, n - 1) + if a[n - 1] != b[n - 1] { 1nat } else { 0nat }
    }
}

pub open spec fn shorter(a: int, b: int) -> int {
    if a < b {
        a
    } else {
        b
    }
}

/// Number of ones in a bit string.
pub open spec fn ones(s: Seq<char>) -> nat
    decreases s.len(),
{
    if s.len() == 0 {
        0
    } else {
        ones(s.drop_last()) + if s.last() == '1' { 1nat } else { 0nat }
    }
}

/// Symbols `i`, `i - stride`, `i - 2 * stride` and so on of a bit string, each
/// with its two bits swapped.
pub open spec fn read_out(g: Seq<char>, i: int, stride: int) -> Seq<char>
    decreases if i < 0 { 0 } else { i + 1 },
{
    if i < 0 || stride <= 0 {
        Seq::empty()
    } else {
        seq![g[2 * i + 1], g[2 * i]] + read_out(g, i - stride, stride)
    }
}

/// The corrected data bits of a block and the number of errors fixed, if the
/// block passes at the given effort.
pub open spec fn block_data(block: Seq<char>, poly: u32, effort: Effort) -> Option<(Seq<char>, u32)> {
    let word = bit_word(byte_range(block, 0, 31));
    let fixed = word_bits(corrected(poly, word).1);
    if byte_len(block) < 32 {
        None
    } else if effort == Effort::Strict {
        if gf2_rem(poly, word) == 0 {
            Some((fixed.take(31 - degree(poly)), 0u32))
        } else {
            None
        }
    } else {
        match corrected(poly, word).0 {
            Some(n) if (ones(fixed) + bit_of(block[chars_before(block, 31)])) % 2 == 0 => Some(
                (fixed.take(31 - degree(poly)), n as u32),
            ),
            _ => None,
        }
    }
}

/// The contents of each string.
pub open spec fn texts(v: Seq<String>) -> Seq<Seq<char>> {
    Seq::new(v.len(), |i: int| v[i]@)
}

/// Whether a block is long enough and within the power of its code.
pub open spec fn usable(block: Seq<char>, poly: u32) -> bool {
    byte_len(block) >= 31 && corrected(poly, bit_word(byte_range(block, 0, 31))).0 is Some
}

/// Index of the first block from `from` on that is not usable.
pub open spec fn run_end(blocks: Seq<Seq<char>>, poly: u32, from: int) -> int
    decreases blocks.len() - from,
{
    if from >= blocks.len() || from < 0 || !usable(blocks[from], poly) {
        from
    } else {
        run_end(blocks, poly, from + 1)
    }
}

/// Data bits of the first `n` blocks, one after the other.
pub open spec fn payload(blocks: Seq<Seq<char>>, poly: u32, n: int) -> Seq<char>
    decreases n,
{
    if n <= 0 {
        Seq::empty()
    } else {
        payload(blocks, poly, n - 1) + word_bits(corrected(poly, bit_word(byte_range(blocks[n - 1], 0, 31))).1).take(
            31 - degree(poly),
        )
    }
}

/// Number of bits corrected in the first `n` blocks.
pub open spec fn fixes(blocks: Seq<Seq<char>>, poly: u32, n: int) -> int
    decreases n,
{
    if n <= 0 {
        0
    } else {
        fixes(blocks, poly, n - 1) + match corrected(poly, bit_word(byte_range(blocks[n - 1], 0, 31))).0 {
            Some(e) => e as int,
            None => 0,
        }
    }
}

/// Whether the number of corrected bits fits its counter, as it does where there
/// are few enough blocks.
pub open spec fn count_fits(blocks: Seq<Seq<char>>, poly: u32) -> bool {
    2 * blocks.len() <= u32::MAX || fixes(blocks, poly, run_end(blocks, poly, 0)) <= u32::MAX
}

/// Whether no character of a block that is looked at straddles its 31st byte.
pub open spec fn cuts_cleanly(blocks: Seq<Seq<char>>, poly: u32) -> bool {
    forall|i: int|
        0 <= i <= run_end(blocks, poly, 0) && i < blocks.len() && byte_len(#[trigger] blocks[i]) >= 31 ==> char_boundary(
            blocks[i],
            31,
        )
}

/// The two blocks of each of the first `n` groups of 64 bits.
pub open spec fn group_blocks(data: Seq<char>, n: int) -> Seq<Seq<char>>
    decreases n,
{
    if n <= 0 {
        Seq::empty()
    } else {
        let g = data.subrange(64 * (n - 1), 64 * n);
        group_blocks(data, n - 1) + seq![read_out(g, 31, 2), read_out(g, 30, 2)]
    }
}

/// The blocks of a ring alert: three from the first 96 bits, then two from each
/// group of 64.
pub open spec fn ira_blocks(data: Seq<char>) -> Seq<Seq<char>> {
    let g = data.take(96);
    let rest = data.skip(96);
    seq![read_out(g, 47, 3), read_out(g, 46, 3), read_out(g, 45, 3)] + group_blocks(rest, rest.len() as int / 64)
}

/// Value of the bits from `a` up to `b`.
pub open spec fn field(p: Seq<char>, a: int, b: int) -> u32 {
    bit_word(p.subrange(a, b))
}

/// An 11-bit magnitude from `at + 1` on, with a sign bit of weight 2048 at `at`.
pub open spec fn position(p: Seq<char>, at: int) -> i32 {
    (field(p, at + 1, at + 12) - if p[at] == '1' { 2048int } else { 0int }) as i32
}

/// What a ring alert says, if its first 63 payload bits were recovered.
pub open spec fn ring_alert(data: Seq<char>) -> Option<Ira> {
    let blocks = ira_blocks(data);
    let n = run_end(blocks, RINGALERT, 0);
    let p = payload(blocks, RINGALERT, n);
    if data.len() < 96 || p.len() < 63 {
        None
    } else {
        Some(
            Ira {
                sat: field(p, 0, 7),
                beam: field(p, 7, 13),
                pos_x: position(p, 13),
                pos_y: position(p, 25),
                pos_z: position(p, 37),
                interval: field(p, 49, 56),
                slot: field(p, 56, 57),
                eip: field(p, 57, 58),
                bc_sb: field(p, 58, 63),
                corrected: fixes(blocks, RINGALERT, n) as u32,
            },
        )
    }
}

/// What a broadcast burst says, if its header divides cleanly and its first two
/// blocks pass.
pub open spec fn broadcast(data: Seq<char>, effort: Effort) -> Option<Ibc> {
    let g = data.subrange(6, 70);
    let body = data.subrange(6, shorter(262, data.len() as int));
    let blocks = group_blocks(body, body.len() as int / 64);
    let n = run_end(blocks, RINGALERT, 0);
    let p = payload(blocks, RINGALERT, n);
    if data.len() <= 70 || gf2_rem(HDR, bit_word(data.take(6))) != 0 || block_data(
        read_out(g, 31, 2),
        RINGALERT,
        effort,
    ) is None || block_data(read_out(g, 30, 2), RINGALERT, effort) is None || n == 0 || p.len() < 40 {
        None
    } else {
        Some(
            Ibc {
                bc_type: bit_word(data.take(6)) >> 4,
                sv_id: field(p, 0, 7),
                beam_id: field(p, 7, 13),
                slot: field(p, 14, 15),
                sv_blocking: field(p, 15, 16),
                acqu_subband: field(p, 32, 37),
                acqu_channels: field(p, 37, 40),
                corrected: fixes(blocks, RINGALERT, n) as u32,
            },
        )
    }
}

/// Structure of a messaging burst, if anything follows its header.
pub open spec fn messaging(data: Seq<char>) -> Option<Ms> {
    let body = data.skip(32);
    let blocks = group_blocks(body, body.len() as int / 64);
    let n = run_end(blocks, MESSAGING, 0);
    if data.len() <= 32 {
        None
    } else {
        Some(
            Ms {
                blocks: n as usize,
                payload_bits: payload(blocks, MESSAGING, n).len() as usize,
                corrected: fixes(blocks, MESSAGING, n) as u32,
            },
        )
    }
}

/// Symbol distances of a damaged access word to the four known ones.
pub open spec fn word_distance(bits: Seq<char>, word: Seq<u8>) -> u32 {
    differences(dqpsk_symbols(encode_utf8(byte_range(bits, 0, 24))), word, 12) as u32
}

/// The direction told by the access word: what is left to decode of a downlink
/// burst, with the number of symbol errors in its access word, or the class of
/// any other burst.
pub enum Access {
    Downlink(u32),
    Other(Class),
}

pub open spec fn smallest(a: u32, b: u32) -> u32 {
    if b < a {
        b
    } else {
        a
    }
}

pub open spec fn access(bits: Seq<char>, effort: Effort) -> Access {
    if ACCESS_DOWNLINK@.is_prefix_of(bits) {
        Access::Downlink(0)
    } else if ACCESS_UPLINK@.is_prefix_of(bits) {
        Access::Other(Class::Uplink)
    } else if ACCESS_NEXT_DL@.is_prefix_of(bits) || ACCESS_NEXT_UL@.is_prefix_of(bits) {
        Access::Other(Class::Next)
    } else if effort == Effort::Harder && byte_len(bits) >= 24 {
        let dl = word_distance(bits, UW_DOWNLINK@);
        let ul = word_distance(bits, UW_UPLINK@);
        let ndl = word_distance(bits, NXT_UW_DOWNLINK@);
        let nul = word_distance(bits, NXT_UW_UPLINK@);
        let best = smallest(smallest(smallest(dl, ul), ndl), nul);
        if best > UW_MAX_ERRORS {
            Access::Other(Class::NoAccess)
        } else if best == ul {
            Access::Other(Class::Uplink)
        } else if best == ndl || best == nul {
            Access::Other(Class::Next)
        } else {
            Access::Downlink(dl)
        }
    } else {
        Access::Other(Class::NoAccess)
    }
}

/// A symbol is the one before it turned on by a step: none for the bits 00, one for 01, two for
/// 11 and three for 10. The first is turned on from symbol 0.
pub proof fn law_steps_of_the_symbols(b: Seq<u8>, k: int)
    requires
        0 <= k,
        2 * k + 1 < b.len(),
        b[2 * k] == 0x30 || b[2 * k] == 0x31,
        b[2 * k + 1] == 0x30 || b[2 * k + 1] == 0x31,
    ensures
        ({
            let step = if b[2 * k] == 0x30 && b[2 * k + 1] == 0x30 {
                0int
            } else if b[2 * k] == 0x30 {
                1
            } else if b[2 * k + 1] == 0x31 {
                2
            } else {
                3
            };
            let before = if k == 0 {
                0int
            } else {
                dqpsk_symbols(b)[k - 1] as int
            };
            dqpsk_symbols(b)[k] == (before + step) % 4
        }),
{
    if k > 0 {
        lemma_symbol_range(b, k - 1);
    }
}

proof fn lemma_symbol_range(b: Seq<u8>, k: int)
    ensures
        dqpsk_symbol(b, k) < 4,
    decreases k,
{
    if k > 0 {
        lemma_symbol_range(b, k - 1);
    }
}

/// The characters of a text of ASCII as bytes.
pub open spec fn as_bytes(s: Seq<char>) -> Seq<u8> {
    Seq::new(s.len(), |i: int| s[i] as u8)
}

/// The symbols of the access words are those that their bits are sent as.
pub proof fn law_symbols_of_the_access_words()
    ensures
        dqpsk_symbols(as_bytes(ACCESS_DOWNLINK@)) == UW_DOWNLINK@,
        dqpsk_symbols(as_bytes(ACCESS_UPLINK@)) == UW_UPLINK@,
        dqpsk_symbols(as_bytes(ACCESS_NEXT_DL@)) == NXT_UW_DOWNLINK@,
        dqpsk_symbols(as_bytes(ACCESS_NEXT_UL@)) == NXT_UW_UPLINK@,
{
    lemma_downlink();
    lemma_uplink();
    lemma_next_dl();
    lemma_next_ul();
}

proof fn lemma_downlink()
    ensures
        dqpsk_symbols(as_bytes(ACCESS_DOWNLINK@)) == UW_DOWNLINK@,
{
    reveal_strlit("001100000011000011110011");
    let b = as_bytes(ACCESS_DOWNLINK@);
    assert(b.len() == 24);
    law_steps_of_the_symbols(b, 0);
    assert(dqpsk_symbols(b)[0] == 0);
    law_steps_of_the_symbols(b, 1);
    assert(dqpsk_symbols(b)[1] == 2);
    law_steps_of_the_symbols(b, 2);
    assert(dqpsk_symbols(b)[2] == 2);
    law_steps_of_the_symbols(b, 3);
    assert(dqpsk_symbols(b)[3] == 2);
    law_steps_of_the_symbols(b, 4);
    assert(dqpsk_symbols(b)[4] == 2);
    law_steps_of_the_symbols(b, 5);
    assert(dqpsk_symbols(b)[5] == 0);
    law_steps_of_the_symbols(b, 6);
    assert(dqpsk_symbols(b)[6] == 0);
    law_steps_of_the_symbols(b, 7);
    assert(dqpsk_symbols(b)[7] == 0);
    law_steps_of_the_symbols(b, 8);
    assert(dqpsk_symbols(b)[8] == 2);
    law_steps_of_the_symbols(b, 9);
    assert(dqpsk_symbols(b)[9] == 0);
    law_steps_of_the_symbols(b, 10);
    assert(dqpsk_symbols(b)[10] == 0);
    law_steps_of_the_symbols(b, 11);
    assert(dqpsk_symbols(b)[11] == 2);
    assert(dqpsk_symbols(b) =~= UW_DOWNLINK@);
}

proof fn lemma_uplink()
    ensures
        dqpsk_symbols(as_bytes(ACCESS_UPLINK@)) == UW_UPLINK@,
{
    reveal_strlit("110011000011110011111100");
    let b = as_bytes(ACCESS_UPLINK@);
    assert(b.len() == 24);
    law_steps_of_the_symbols(b, 0);
    assert(dqpsk_symbols(b)[0] == 2);
    law_steps_of_the_symbols(b, 1);
    assert(dqpsk_symbols(b)[1] == 2);
    law_steps_of_the_symbols(b, 2);
    assert(dqpsk_symbols(b)[2] == 0);
    law_steps_of_the_symbols(b, 3);
    assert(dqpsk_symbols(b)[3] == 0);
    law_steps_of_the_symbols(b, 4);
    assert(dqpsk_symbols(b)[4] == 0);
    law_steps_of_the_symbols(b, 5);
    assert(dqpsk_symbols(b)[5] == 2);
    law_steps_of_the_symbols(b, 6);
    assert(dqpsk_symbols(b)[6] == 0);
    law_steps_of_the_symbols(b, 7);
    assert(dqpsk_symbols(b)[7] == 0);
    law_steps_of_the_symbols(b, 8);
    assert(dqpsk_symbols(b)[8] == 2);
    law_steps_of_the_symbols(b, 9);
    assert(dqpsk_symbols(b)[9] == 0);
    law_steps_of_the_symbols(b, 10);
    assert(dqpsk_symbols(b)[10] == 2);
    law_steps_of_the_symbols(b, 11);
    assert(dqpsk_symbols(b)[11] == 2);
    assert(dqpsk_symbols(b) =~= UW_UPLINK@);
}

proof fn lemma_next_dl()
    ensures
        dqpsk_symbols(as_bytes(ACCESS_NEXT_DL@)) == NXT_UW_DOWNLINK@,
{
    reveal_strlit("110011110011111111111100");
    let b = as_bytes(ACCESS_NEXT_DL@);
    assert(b.len() == 24);
    law_steps_of_the_symbols(b, 0);
    assert(dqpsk_symbols(b)[0] == 2);
    law_steps_of_the_symbols(b, 1);
    assert(dqpsk_symbols(b)[1] == 2);
    law_steps_of_the_symbols(b, 2);
    assert(dqpsk_symbols(b)[2] == 0);
    law_steps_of_the_symbols(b, 3);
    assert(dqpsk_symbols(b)[3] == 2);
    law_steps_of_the_symbols(b, 4);
    assert(dqpsk_symbols(b)[4] == 2);
    law_steps_of_the_symbols(b, 5);
    assert(dqpsk_symbols(b)[5] == 0);
    law_steps_of_the_symbols(b, 6);
    assert(dqpsk_symbols(b)[6] == 2);
    law_steps_of_the_symbols(b, 7);
    assert(dqpsk_symbols(b)[7] == 0);
    law_steps_of_the_symbols(b, 8);
    assert(dqpsk_symbols(b)[8] == 2);
    law_steps_of_the_symbols(b, 9);
    assert(dqpsk_symbols(b)[9] == 0);
    law_steps_of_the_symbols(b, 10);
    assert(dqpsk_symbols(b)[10] == 2);
    law_steps_of_the_symbols(b, 11);
    assert(dqpsk_symbols(b)[11] == 2);
    assert(dqpsk_symbols(b) =~= NXT_UW_DOWNLINK@);
}

proof fn lemma_next_ul()
    ensures
        dqpsk_symbols(as_bytes(ACCESS_NEXT_UL@)) == NXT_UW_UPLINK@,
{
    reveal_strlit("001111000000000011111111");
    let b = as_bytes(ACCESS_NEXT_UL@);
    assert(b.len() == 24);
    law_steps_of_the_symbols(b, 0);
    assert(dqpsk_symbols(b)[0] == 0);
    law_steps_of_the_symbols(b, 1);
    assert(dqpsk_symbols(b)[1] == 2);
    law_steps_of_the_symbols(b, 2);
    assert(dqpsk_symbols(b)[2] == 0);
    law_steps_of_the_symbols(b, 3);
    assert(dqpsk_symbols(b)[3] == 0);
    law_steps_of_the_symbols(b, 4);
    assert(dqpsk_symbols(b)[4] == 0);
    law_steps_of_the_symbols(b, 5);
    assert(dqpsk_symbols(b)[5] == 0);
    law_steps_of_the_symbols(b, 6);
    assert(dqpsk_symbols(b)[6] == 0);
    law_steps_of_the_symbols(b, 7);
    assert(dqpsk_symbols(b)[7] == 0);
    law_steps_of_the_symbols(b, 8);
    assert(dqpsk_symbols(b)[8] == 2);
    law_steps_of_the_symbols(b, 9);
    assert(dqpsk_symbols(b)[9] == 0);
    law_steps_of_the_symbols(b, 10);
    assert(dqpsk_symbols(b)[10] == 2);
    law_steps_of_the_symbols(b, 11);
    assert(dqpsk_symbols(b)[11] == 0);
    assert(dqpsk_symbols(b) =~= NXT_UW_UPLINK@);
}

/// Without an access word as it is sent, and where more effort is allowed, a frame is what the
/// nearest of the four words says, if that is within three symbols: of words as near as each
/// other uplink comes first and the downlink of the first generation last.
pub proof fn law_nearest_access_word(bits: Seq<char>)
    requires
        byte_len(bits) >= 24,
        !ACCESS_DOWNLINK@.is_prefix_of(bits),
        !ACCESS_UPLINK@.is_prefix_of(bits),
        !ACCESS_NEXT_DL@.is_prefix_of(bits),
        !ACCESS_NEXT_UL@.is_prefix_of(bits),
    ensures
        ({
            let dl = word_distance(bits, UW_DOWNLINK@);
            let ul = word_distance(bits, UW_UPLINK@);
            let ndl = word_distance(bits, NXT_UW_DOWNLINK@);
            let nul = word_distance(bits, NXT_UW_UPLINK@);
            let r = access(bits, Effort::Harder);
            &&& r == Access::Downlink(dl) <==> dl <= 3 && dl < ul && dl < ndl && dl < nul
            &&& r == Access::Other(Class::Uplink) <==> ul <= 3 && ul <= dl && ul <= ndl && ul <= nul
            &&& r == Access::Other(Class::NoAccess) <==> dl > 3 && ul > 3 && ndl > 3 && nul > 3
            &&& r is Downlink || r == Access::Other(Class::Uplink) || r == Access::Other(Class::NoAccess) || r
                == Access::Other(Class::Next)
        }),
        access(bits, Effort::Strict) == Access::Other(Class::NoAccess),
{
}

/// An access word as it is sent decides, whatever the effort.
pub proof fn law_sent_access_words_decide(bits: Seq<char>, effort: Effort)
    ensures
        "001100000011000011110011"@.is_prefix_of(bits) ==> access(bits, effort) == Access::Downlink(0),
        "110011000011110011111100"@.is_prefix_of(bits) ==> access(bits, effort) == Access::Other(Class::Uplink),
        "110011110011111111111100"@.is_prefix_of(bits) ==> access(bits, effort) == Access::Other(Class::Next),
        "001111000000000011111111"@.is_prefix_of(bits) ==> access(bits, effort) == Access::Other(Class::Next),
{
    reveal_strlit("001100000011000011110011");
    reveal_strlit("110011000011110011111100");
    reveal_strlit("110011110011111111111100");
    reveal_strlit("001111000000000011111111");
    let (dl, ul) = ("001100000011000011110011"@, "110011000011110011111100"@);
    let (ndl, nul) = ("110011110011111111111100"@, "001111000000000011111111"@);
    assert(dl[0] != ul[0] && dl[0] != ndl[0] && dl[4] != nul[4] && ul[6] != ndl[6] && ul[0] != nul[0]);
}

/// Class of the part of a downlink burst that follows the access word.
pub open spec fn downlink_class(
    data: Seq<char>,
    simplex: bool,
    duplex: bool,
    effort: Effort,
    uw_errors: u32,
) -> Class {
    let g = data.take(96);
    if simplex && HEADER_MESSAGING@.is_prefix_of(data) {
        match messaging(data) {
            Some(ms) => Class::Messaging(ms),
            None => Class::Messaging(Ms { blocks: 0, payload_bits: 0, corrected: 0 }),
        }
    } else if simplex && data.len() >= 96 && data[0] == '1' && data[1] == '1' && (forall|i: int|
        2 <= i < 96 ==> #[trigger] data[i] == '0') {
        Class::TimeLocation
    } else if duplex && broadcast(data, effort) is Some {
        let ibc = broadcast(data, effort)->0;
        Class::Broadcast(Ibc { corrected: (ibc.corrected + uw_errors) as u32, ..ibc })
    } else if simplex && data.len() >= 96 && block_data(read_out(g, 47, 3), RINGALERT, effort) is Some
        && block_data(read_out(g, 46, 3), RINGALERT, effort) is Some && block_data(
        read_out(g, 45, 3),
        RINGALERT,
        effort,
    ) is Some && ring_alert(data) is Some {
        let ira = ring_alert(data)->0;
        Class::RingAlert(Ira { corrected: (ira.corrected + uw_errors) as u32, ..ira })
    } else {
        Class::Unknown
    }
}

/// What follows the 24 bytes of the access word.
pub open spec fn after_word(bits: Seq<char>) -> Seq<char> {
    bits.skip(chars_before(bits, 24))
}

/// Class of a burst. A known frequency restricts the classes that are tried.
pub open spec fn class_of(bits: Seq<char>, freq_hz: Option<i64>, effort: Effort) -> Class {
    match access(bits, effort) {
        Access::Other(c) => c,
        Access::Downlink(e) => downlink_class(
            after_word(bits),
            freq_hz is None || freq_hz->0 > F_SIMPLEX_HZ,
            freq_hz is None || freq_hz->0 < F_DUPLEX_HZ,
            effort,
            e,
        ),
    }
}

/// Whether a text starts with one of the four access words.
pub open spec fn has_access_word(bits: Seq<char>) -> bool {
    ACCESS_DOWNLINK@.is_prefix_of(bits) || ACCESS_UPLINK@.is_prefix_of(bits) || ACCESS_NEXT_DL@.is_prefix_of(bits)
        || ACCESS_NEXT_UL@.is_prefix_of(bits)
}

/// Whether what follows an access word is ASCII text of few enough blocks for the
/// error count: no block counts more than two errors, and the word at most three.
pub open spec fn countable(data: Seq<char>) -> bool {
    ascii_text(data) && 2 * (3 + 2 * (data.len() / 64)) + 3 <= u32::MAX
}

/// What the classifier asks of a burst: countable data behind the word of a
/// downlink burst and, where a damaged word is looked for, a whole word of digits.
pub open spec fn readable(bits: Seq<char>, effort: Effort) -> bool {
    &&& effort == Effort::Harder && !has_access_word(bits) && byte_len(bits) >= 24 ==> char_boundary(bits, 24)
        && pairs_fit(encode_utf8(byte_range(bits, 0, 24)))
    &&& access(bits, effort) is Downlink ==> countable(after_word(bits))
}

proof fn lemma_word_lengths()
    ensures
        ACCESS_DOWNLINK@.len() == 24,
        HEADER_MESSAGING@.len() == 32,
{
    reveal_strlit("001100000011000011110011");
    reveal_strlit("00110011111100110011001111110011");
}

proof fn lemma_ones_concat(a: Seq<char>, b: Seq<char>)
    ensures
        ones(a + b) == ones(a) + ones(b),
    decreases b.len(),
{
    if b.len() == 0 {
        assert(a + b == a);
    } else {
        assert((a + b).drop_last() == a + b.drop_last());
        lemma_ones_concat(a, b.drop_last());
    }
}

proof fn lemma_weight(poly: u32, word: u32)
    ensures
        corrected(poly, word).0 is Some ==> corrected(poly, word).0->0 <= 2,
{
    if gf2_rem(poly, word) != 0 && exists|fix: (u8, u32)| correctable(poly, word, fix) {
        let fix = choose|fix: (u8, u32)| correctable(poly, word, fix);
        assert(error_pattern(poly, fix.0, fix.1));
    }
}

proof fn lemma_run_bounds(blocks: Seq<Seq<char>>, poly: u32, from: int)
    requires
        0 <= from <= blocks.len(),
    ensures
        from <= run_end(blocks, poly, from) <= blocks.len(),
        forall|i: int| from <= i < run_end(blocks, poly, from) ==> usable(#[trigger] blocks[i], poly),
        run_end(blocks, poly, from) < blocks.len() ==> !usable(blocks[run_end(blocks, poly, from)], poly),
    decreases blocks.len() - from,
{
    if from < blocks.len() && usable(blocks[from], poly) {
        lemma_run_bounds(blocks, poly, from + 1);
    }
}

proof fn lemma_fixes_bound(blocks: Seq<Seq<char>>, poly: u32, n: int)
    requires
        0 <= n <= blocks.len(),
    ensures
        0 <= fixes(blocks, poly, n) <= 2 * n,
    decreases n,
{
    if n > 0 {
        lemma_fixes_bound(blocks, poly, n - 1);
        lemma_weight(poly, bit_word(byte_range(blocks[n - 1], 0, 31)));
    }
}

proof fn lemma_fixes_grow(blocks: Seq<Seq<char>>, poly: u32, m: int, n: int)
    requires
        0 <= m <= n <= blocks.len(),
    ensures
        fixes(blocks, poly, m) <= fixes(blocks, poly, n),
    decreases n - m,
{
    if m < n {
        lemma_fixes_grow(blocks, poly, m, n - 1);
    }
}

proof fn lemma_ascii_read_out(g: Seq<char>, i: int, stride: int)
    requires
        ascii_text(g),
        2 * i + 1 < g.len(),
    ensures
        ascii_text(read_out(g, i, stride)),
    decreases if i < 0 { 0 } else { i + 1 },
{
    if i >= 0 && stride > 0 {
        lemma_ascii_read_out(g, i - stride, stride);
        assert(g[2 * i] as int <= 127 && g[2 * i + 1] as int <= 127);
    }
}

proof fn lemma_ascii_groups(data: Seq<char>, n: int)
    requires
        ascii_text(data),
        0 <= n,
        64 * n <= data.len(),
    ensures
        forall|i: int| 0 <= i < group_blocks(data, n).len() ==> ascii_text(#[trigger] group_blocks(data, n)[i]),
    decreases n,
{
    if n > 0 {
        lemma_ascii_groups(data, n - 1);
        let g = data.subrange(64 * (n - 1), 64 * n);
        let before = group_blocks(data, n - 1);
        lemma_ascii_read_out(g, 31, 2);
        lemma_ascii_read_out(g, 30, 2);
        assert forall|i: int| 0 <= i < group_blocks(data, n).len() implies ascii_text(
            #[trigger] group_blocks(data, n)[i],
        ) by {
            if i < before.len() {
                assert(group_blocks(data, n)[i] == before[i]);
            }
        }
    }
}

proof fn lemma_ascii_cuts(blocks: Seq<Seq<char>>, poly: u32)
    requires
        forall|i: int| 0 <= i < blocks.len() ==> ascii_text(#[trigger] blocks[i]),
    ensures
        cuts_cleanly(blocks, poly),
{
    assert forall|i: int| 0 <= i <= run_end(blocks, poly, 0) && i < blocks.len() && byte_len(
        #[trigger] blocks[i],
    ) >= 31 implies char_boundary(blocks[i], 31) by {
        lemma_ascii_bytes(blocks[i], 31);
    }
}

proof fn lemma_ascii_payload(blocks: Seq<Seq<char>>, poly: u32, n: int)
    requires
        degree(poly) <= 31,
    ensures
        ascii_text(payload(blocks, poly, n)),
    decreases n,
{
    if n > 0 {
        lemma_ascii_payload(blocks, poly, n - 1);
    }
}

proof fn lemma_group_count(data: Seq<char>, n: int)
    requires
        0 <= n,
    ensures
        group_blocks(data, n).len() == 2 * n,
    decreases n,
{
    if n > 0 {
        lemma_group_count(data, n - 1);
    }
}

proof fn lemma_bit_step(w: u32, x: u32, b: u32, j: u32)
    by (bit_vector)
    requires
        j < 31,
        b <= 1,
    ensures
        ((w >> ((j + 1) as u32)) << 1) | ((w >> j) & 1) == w >> j,
        (w >> j) & 1 == 0 || (w >> j) & 1 == 1,
        x >> j == 0 ==> ((x << 1) | b) >> ((j + 1) as u32) == 0,
        (0u32 << 1) | 0 == 0,
        0u32 >> j == 0,
        x >> 6 == 0 ==> x >> 31 == 0,
        w >> 0u32 == w,
{
}

proof fn lemma_word_prefix(w: u32, j: int)
    requires
        w >> 31 == 0,
        0 <= j <= 31,
    ensures
        bit_word(word_bits(w).take(j)) == w >> ((31 - j) as u32),
    decreases j,
{
    if j > 0 {
        lemma_word_prefix(w, j - 1);
        assert(word_bits(w).take(j).drop_last() == word_bits(w).take(j - 1));
        lemma_bit_step(w, 0, 0, (31 - j) as u32);
    }
}

/// The 31 characters of a word read back as the word.
pub proof fn law_word_bits_read_back(w: u32)
    requires
        w >> 31 == 0,
    ensures
        bit_word(word_bits(w)) == w,
{
    lemma_word_prefix(w, 31);
    assert(word_bits(w).take(31) == word_bits(w));
    lemma_bit_step(w, 0, 0, 0);
}

proof fn lemma_bit_word_bound(s: Seq<char>)
    requires
        s.len() <= 31,
    ensures
        bit_word(s) >> (s.len() as u32) == 0,
    decreases s.len(),
{
    if s.len() == 0 {
        lemma_bit_step(0, 0, 0, 0);
    } else {
        lemma_bit_word_bound(s.drop_last());
        lemma_bit_step(0, bit_word(s.drop_last()), bit_of(s.last()), (s.len() - 1) as u32);
    }
}

proof fn lemma_padded(z: Seq<char>, s: Seq<char>)
    requires
        forall|i: int| 0 <= i < z.len() ==> #[trigger] z[i] == '0',
    ensures
        bit_word(z + s) == bit_word(s),
    decreases z.len() + s.len(),
{
    lemma_bit_step(0, 0, 0, 0);
    if s.len() > 0 {
        assert((z + s).drop_last() == z + s.drop_last());
        lemma_padded(z, s.drop_last());
    } else if z.len() > 0 {
        assert(z + s == z);
        assert(z.drop_last() + s == z.drop_last());
        lemma_padded(z.drop_last(), s);
    }
}

proof fn lemma_read_out_multiset(g: Seq<char>, n: int)
    requires
        0 <= n,
        2 * n <= g.len(),
    ensures
        read_out(g, n - 1, 2).to_multiset().add(read_out(g, n - 2, 2).to_multiset()) == g.take(
            2 * n,
        ).to_multiset(),
    decreases n,
{
    broadcast use {vstd::multiset::group_multiset_axioms, vstd::seq_lib::group_to_multiset_ensures};

    if n == 0 {
        assert(g.take(0) == Seq::<char>::empty());
        assert(read_out(g, -1, 2) == Seq::<char>::empty());
        assert(read_out(g, -2, 2) == Seq::<char>::empty());
        assert(Seq::<char>::empty().to_multiset().add(Seq::<char>::empty().to_multiset()) =~= Seq::<char>::empty().to_multiset());
    } else {
        let pair = seq![g[2 * (n - 1) + 1], g[2 * (n - 1)]];
        let swapped = seq![g[2 * (n - 1)], g[2 * (n - 1) + 1]];
        lemma_read_out_multiset(g, n - 1);
        vstd::seq_lib::lemma_multiset_commutative(pair, read_out(g, n - 3, 2));
        assert(g.take(2 * n) == g.take(2 * (n - 1)) + swapped);
        vstd::seq_lib::lemma_multiset_commutative(g.take(2 * (n - 1)), swapped);
        lemma_swap(g[2 * (n - 1)], g[2 * (n - 1) + 1]);
        assert(read_out(g, n - 1, 2).to_multiset().add(read_out(g, n - 2, 2).to_multiset()) =~= g.take(
            2 * n,
        ).to_multiset());
    }
}

proof fn lemma_swap(a: char, b: char)
    ensures
        seq![a, b].to_multiset() == seq![b, a].to_multiset(),
{
    broadcast use {vstd::multiset::group_multiset_axioms, vstd::seq_lib::group_to_multiset_ensures};

    vstd::seq_lib::lemma_multiset_commutative(seq![a], seq![b]);
    vstd::seq_lib::lemma_multiset_commutative(seq![b], seq![a]);
    assert(seq![a] + seq![b] == seq![a, b]);
    assert(seq![b] + seq![a] == seq![b, a]);
    assert(seq![a, b].to_multiset() =~= seq![b, a].to_multiset());
}

proof fn lemma_read_out3_multiset(g: Seq<char>, n: int)
    requires
        0 <= n,
        2 * n <= g.len(),
    ensures
        read_out(g, n - 1, 3).to_multiset().add(read_out(g, n - 2, 3).to_multiset()).add(
            read_out(g, n - 3, 3).to_multiset(),
        ) == g.take(2 * n).to_multiset(),
    decreases n,
{
    broadcast use {vstd::multiset::group_multiset_axioms, vstd::seq_lib::group_to_multiset_ensures};

    if n == 0 {
        assert(g.take(0) == Seq::<char>::empty());
        assert(read_out(g, -1, 3) == Seq::<char>::empty());
        assert(read_out(g, -2, 3) == Seq::<char>::empty());
        assert(read_out(g, -3, 3) == Seq::<char>::empty());
        assert(Seq::<char>::empty().to_multiset().add(Seq::<char>::empty().to_multiset()).add(Seq::<char>::empty().to_multiset()) =~= Seq::<char>::empty().to_multiset());
    } else {
        let pair = seq![g[2 * (n - 1) + 1], g[2 * (n - 1)]];
        let swapped = seq![g[2 * (n - 1)], g[2 * (n - 1) + 1]];
        lemma_read_out3_multiset(g, n - 1);
        vstd::seq_lib::lemma_multiset_commutative(pair, read_out(g, n - 4, 3));
        assert(g.take(2 * n) == g.take(2 * (n - 1)) + swapped);
        vstd::seq_lib::lemma_multiset_commutative(g.take(2 * (n - 1)), swapped);
        lemma_swap(g[2 * (n - 1)], g[2 * (n - 1) + 1]);
        assert(read_out(g, n - 1, 3).to_multiset().add(read_out(g, n - 2, 3).to_multiset()).add(
            read_out(g, n - 3, 3).to_multiset(),
        ) =~= g.take(2 * n).to_multiset());
    }
}

/// De-interleaving a whole number of symbols neither loses nor invents a bit,
/// at either stride.
pub proof fn law_deinterleaving_keeps_every_bit(g: Seq<char>)
    requires
        g.len() % 2 == 0,
    ensures
        ({
            let n = g.len() as int / 2;
            &&& read_out(g, n - 1, 2).to_multiset().add(read_out(g, n - 2, 2).to_multiset()) == g.to_multiset()
            &&& read_out(g, n - 1, 3).to_multiset().add(read_out(g, n - 2, 3).to_multiset()).add(
                read_out(g, n - 3, 3).to_multiset(),
            ) == g.to_multiset()
        }),
{
    let n = g.len() as int / 2;
    lemma_read_out_multiset(g, n);
    lemma_read_out3_multiset(g, n);
    assert(g.take(2 * n) == g);
}

/// De-interleaving puts symbol `i - stride * k` of the group, its bits
/// swapped, at place `k` of the block.
pub proof fn law_deinterleaved_symbols(g: Seq<char>, i: int, stride: int, k: int)
    requires
        stride > 0,
        0 <= k,
        0 <= i - stride * k,
    ensures
        2 * k + 1 < read_out(g, i, stride).len(),
        read_out(g, i, stride)[2 * k] == g[2 * (i - stride * k) + 1],
        read_out(g, i, stride)[2 * k + 1] == g[2 * (i - stride * k)],
    decreases k,
{
    assert(0 <= stride * k) by (nonlinear_arith)
        requires
            stride > 0,
            0 <= k,
    ;
    if k > 0 {
        assert(stride * k == stride * (k - 1) + stride) by (nonlinear_arith);
        law_deinterleaved_symbols(g, i - stride, stride, k - 1);
    } else {
        assert(stride * 0 == 0) by (nonlinear_arith);
    }
}

/// At strict effort a block passes exactly when it divides its generator, and
/// no error is then reported as fixed.
pub proof fn law_strict_blocks_are_exact(block: Seq<char>, poly: u32)
    requires
        byte_len(block) >= 32,
    ensures
        block_data(block, poly, Effort::Strict) is Some <==> gf2_rem(poly, bit_word(byte_range(block, 0, 31))) == 0,
        block_data(block, poly, Effort::Strict) matches Some(b) ==> b.1 == 0,
{
}

/// A burst that strict effort places in a direction is placed in the same
/// direction by the harder effort.
pub proof fn law_harder_effort_keeps_exact_access_words(bits: Seq<char>)
    ensures
        access(bits, Effort::Strict) != Access::Other(Class::NoAccess) ==> access(bits, Effort::Harder) == access(
            bits,
            Effort::Strict,
        ),
{
}

/// At strict effort the access word alone tells the direction of a burst: it has
/// none exactly if the burst starts with none of the four words, and the words of
/// the other directions give their classes, whatever follows and at any frequency.
pub proof fn law_access_words_decide(bits: Seq<char>, freq_hz: Option<i64>)
    ensures
        class_of(bits, freq_hz, Effort::Strict) == Class::NoAccess <==> !ACCESS_DOWNLINK@.is_prefix_of(bits)
            && !ACCESS_UPLINK@.is_prefix_of(bits) && !ACCESS_NEXT_DL@.is_prefix_of(bits)
            && !ACCESS_NEXT_UL@.is_prefix_of(bits),
        class_of(bits, freq_hz, Effort::Strict) == Class::Uplink <==> ACCESS_UPLINK@.is_prefix_of(bits),
        class_of(bits, freq_hz, Effort::Strict) == Class::Next <==> ACCESS_NEXT_DL@.is_prefix_of(bits)
            || ACCESS_NEXT_UL@.is_prefix_of(bits),
        bits.len() < 24 ==> class_of(bits, freq_hz, Effort::Strict) == Class::NoAccess,
{
    reveal_strlit("001100000011000011110011");
    reveal_strlit("110011000011110011111100");
    reveal_strlit("110011110011111111111100");
    reveal_strlit("001111000000000011111111");
    // the words differ from one another within their first seven characters
    if ACCESS_DOWNLINK@.is_prefix_of(bits) {
        assert(bits[4] == ACCESS_DOWNLINK@[4] && bits[0] == ACCESS_DOWNLINK@[0]);
    }
    if ACCESS_UPLINK@.is_prefix_of(bits) {
        assert(bits[0] == ACCESS_UPLINK@[0] && bits[6] == ACCESS_UPLINK@[6]);
    }
    if ACCESS_NEXT_DL@.is_prefix_of(bits) {
        assert(bits[0] == ACCESS_NEXT_DL@[0] && bits[6] == ACCESS_NEXT_DL@[6]);
    }
    if ACCESS_NEXT_UL@.is_prefix_of(bits) {
        assert(bits[4] == ACCESS_NEXT_UL@[4] && bits[0] == ACCESS_NEXT_UL@[0]);
    }
}

/// Nothing from the first unusable block on contributes. The blocks before it are
/// all usable, each gives its data bits, and blocks that agree up to there and stop
/// there as well give the same count, payload and number of corrected bits.
pub proof fn law_nothing_counts_after_a_bad_block(blocks: Seq<Seq<char>>, other: Seq<Seq<char>>, poly: u32)
    requires
        ({
            let k = run_end(blocks, poly, 0);
            &&& k <= other.len()
            &&& forall|i: int| 0 <= i < k ==> #[trigger] other[i] == blocks[i]
            &&& k < other.len() ==> !usable(other[k], poly)
        }),
    ensures
        ({
            let k = run_end(blocks, poly, 0);
            &&& 0 <= k <= blocks.len()
            &&& forall|i: int| 0 <= i < k ==> usable(#[trigger] blocks[i], poly)
            &&& k < blocks.len() ==> !usable(blocks[k], poly)
            &&& poly == RINGALERT || poly == MESSAGING ==> payload(blocks, poly, k).len() == 21 * k
            &&& run_end(other, poly, 0) == k
            &&& payload(other, poly, k) == payload(blocks, poly, k)
            &&& fixes(other, poly, k) == fixes(blocks, poly, k)
        }),
{
    let k = run_end(blocks, poly, 0);
    lemma_run_bounds(blocks, poly, 0);
    lemma_same_run(blocks, other, poly, 0);
    lemma_same_blocks(blocks, other, poly, k);
}

proof fn lemma_same_run(blocks: Seq<Seq<char>>, other: Seq<Seq<char>>, poly: u32, from: int)
    requires
        0 <= from <= run_end(blocks, poly, from),
        run_end(blocks, poly, from) <= blocks.len(),
        run_end(blocks, poly, from) <= other.len(),
        forall|i: int| from <= i < run_end(blocks, poly, from) ==> #[trigger] other[i] == blocks[i],
        run_end(blocks, poly, from) < other.len() ==> !usable(other[run_end(blocks, poly, from)], poly),
    ensures
        run_end(other, poly, from) == run_end(blocks, poly, from),
    decreases blocks.len() - from,
{
    if from < run_end(blocks, poly, from) {
        lemma_run_bounds(blocks, poly, from + 1);
        lemma_same_run(blocks, other, poly, from + 1);
    }
}

proof fn lemma_same_blocks(blocks: Seq<Seq<char>>, other: Seq<Seq<char>>, poly: u32, n: int)
    requires
        0 <= n <= blocks.len(),
        n <= other.len(),
        forall|i: int| 0 <= i < n ==> #[trigger] other[i] == blocks[i],
    ensures
        payload(other, poly, n) == payload(blocks, poly, n),
        fixes(other, poly, n) == fixes(blocks, poly, n),
        poly == RINGALERT || poly == MESSAGING ==> payload(blocks, poly, n).len() == 21 * n,
    decreases n,
{
    if n > 0 {
        lemma_same_blocks(blocks, other, poly, n - 1);
        reveal_with_fuel(degree, 12);
    }
}

// --------------------------------------------------------- reading back
/// Whether a text holds nothing but the digits zero and one.
pub open spec fn binary(s: Seq<char>) -> bool {
    forall|i: int| 0 <= i < s.len() ==> #[trigger] s[i] == '0' || s[i] == '1'
}

/// The value of a bit string: each further digit doubles it and adds itself.
pub proof fn law_bit_strings_are_binary_numbers(s: Seq<char>, c: char)
    requires
        s.len() <= 30,
    ensures
        bit_word(s.push(c)) == 2 * bit_word(s) + (if c == '1' { 1int } else { 0 }),
        bit_word(Seq::<char>::empty()) == 0,
{
    assert(s.push(c).drop_last() =~= s);
    lemma_bit_word_bound(s);
    lemma_bit_reads(bit_word(s), bit_of(c), s.len() as u32);
}

proof fn lemma_bit_reads(x: u32, b: u32, n: u32)
    by (bit_vector)
    requires
        b <= 1,
        n <= 30,
    ensures
        x >> n == 0 ==> (x << 1) | b == 2 * x + b,
        x >> n == 0 ==> ((x << 1) | b) >> ((n + 1) as u32) == 0,
        ((x << 1) | b) & 1 == b,
        (((x << 1) | b) >> 0u32) & 1 == b,
        x >> 30 == 0 ==> ((x << 1) | b) >> ((n + 1) as u32) == x >> n,
        x >> n == 0 ==> x >> 30 == 0,
{
}

/// Digit `i` of a bit string is the bit of its value that stands for it.
proof fn lemma_digit_of_word(s: Seq<char>, i: int)
    requires
        binary(s),
        0 <= i < s.len() <= 31,
    ensures
        (bit_word(s) >> ((s.len() - 1 - i) as u32)) & 1 == bit_of(s[i]),
    decreases s.len(),
{
    let t = s.drop_last();
    lemma_bit_word_bound(t);
    let n = t.len() as u32;
    lemma_bit_reads(bit_word(t), bit_of(s.last()), n);
    if i < t.len() {
        assert(binary(t)) by {
            assert forall|k: int| 0 <= k < t.len() implies #[trigger] t[k] == '0' || t[k] == '1' by {
                assert(s[k] == '0' || s[k] == '1');
            }
        }
        lemma_digit_of_word(t, i);
        lemma_bit_reads(bit_word(t), bit_of(s.last()), (t.len() - 1 - i) as u32);
    }
}

/// The digits of the value of a bit string are the string.
proof fn lemma_bits_of_word(s: Seq<char>)
    requires
        binary(s),
        s.len() == 31,
    ensures
        word_bits(bit_word(s)) == s,
{
    assert forall|i: int| 0 <= i < 31 implies word_bits(bit_word(s))[i] == s[i] by {
        lemma_digit_of_word(s, i);
        assert(s[i] == '0' || s[i] == '1');
    }
    assert(word_bits(bit_word(s)) =~= s);
}

/// Symbol `k` of a text: its two digits.
pub open spec fn symbol(s: Seq<char>, k: int) -> (char, char) {
    (s[2 * k], s[2 * k + 1])
}

/// Whether a block of 32 digits is free of errors: the number of its first 31 is a
/// multiple of the generator.
pub open spec fn clean_block(b: Seq<char>, poly: u32) -> bool {
    b.len() == 32 && binary(b) && gf2_rem(poly, bit_word(b.take(31))) == 0
}

proof fn lemma_clean_block(b: Seq<char>, poly: u32)
    requires
        clean_block(b, poly),
        degree(poly) == 10,
    ensures
        ascii_text(b),
        usable(b, poly),
        corrected(poly, bit_word(byte_range(b, 0, 31))).0 == Some(0u8),
        word_bits(corrected(poly, bit_word(byte_range(b, 0, 31))).1).take(21) == b.take(21),
        block_data(b, poly, Effort::Strict) == Some((b.take(21), 0u32)),
{
    assert(ascii_text(b)) by {
        assert forall|i: int| 0 <= i < b.len() implies (#[trigger] b[i]) as int <= 127 by {
            assert(b[i] == '0' || b[i] == '1');
        }
    }
    lemma_ascii_bytes(b, 31);
    lemma_ascii_bytes(b, 0);
    let t = b.take(31);
    assert(byte_range(b, 0, 31) =~= t);
    assert(binary(t)) by {
        assert forall|i: int| 0 <= i < 31 implies #[trigger] t[i] == '0' || t[i] == '1' by {
            assert(b[i] == '0' || b[i] == '1');
        }
    }
    lemma_bits_of_word(t);
    assert(t.take(21) =~= b.take(21));
}

proof fn lemma_read_out_len(g: Seq<char>, i: int, stride: int)
    requires
        stride == 2 || stride == 3,
    ensures
        i >= 0 ==> read_out(g, i, stride).len() == 2 * (i / stride + 1),
        i < 0 ==> read_out(g, i, stride).len() == 0,
    decreases if i < 0 { 0 } else { i + 1 },
{
    if i >= 0 {
        lemma_read_out_len(g, i - stride, stride);
    }
}

/// A block comes back from where interleaving put its symbols.
proof fn lemma_read_out_block(g: Seq<char>, i: int, stride: int, b: Seq<char>)
    requires
        stride == 2 || stride == 3,
        b.len() == 32,
        i / stride == 15,
        forall|k: int|
            0 <= k < 16 ==> #[trigger] symbol(b, k) == (g[2 * (i - stride * k) + 1], g[2 * (i - stride * k)]),
    ensures
        read_out(g, i, stride) == b,
{
    lemma_read_out_len(g, i, stride);
    assert forall|j: int| 0 <= j < 32 implies read_out(g, i, stride)[j] == b[j] by {
        let k = j / 2;
        assert(0 <= i - stride * k) by {
            if stride == 2 {
                assert(i >= 30);
            } else {
                assert(i >= 45);
            }
        }
        law_deinterleaved_symbols(g, i, stride, k);
        assert(symbol(b, k) == (g[2 * (i - stride * k) + 1], g[2 * (i - stride * k)]));
        assert(j == 2 * k || j == 2 * k + 1);
    }
    assert(read_out(g, i, stride) =~= b);
}

proof fn lemma_payload_prefix(blocks: Seq<Seq<char>>, poly: u32, m: int, n: int)
    requires
        0 <= m <= n,
    ensures
        payload(blocks, poly, m).is_prefix_of(payload(blocks, poly, n)),
    decreases n - m,
{
    if m < n {
        lemma_payload_prefix(blocks, poly, m, n - 1);
        let (a, b, c) = (payload(blocks, poly, m), payload(blocks, poly, n - 1), payload(blocks, poly, n));
        assert(a =~= b.take(a.len() as int));
        assert(a =~= c.take(a.len() as int));
    } else {
        assert(payload(blocks, poly, m) =~= payload(blocks, poly, m).take(payload(blocks, poly, m).len() as int));
    }
}

/// A ring alert sent without errors reads back. Its first three blocks, each of 21 data
/// digits, ten check digits and one of parity, are spread over the first 96 digits: the
/// symbols, of two digits in reverse, of the first block stand at every third place
/// counted back from the last, those of the second and third one and two places before.
/// The 63 data digits are, in this order, the satellite (7), the beam (6), the position
/// along x, y and z (12 each, the first digit counting minus 2048), the interval (7), the
/// slot, the EIP (1 each) and the sub-band (5).
pub proof fn law_ring_alerts_read_back(
    data: Seq<char>,
    a: Seq<char>,
    b: Seq<char>,
    c: Seq<char>,
    sat: Seq<char>,
    beam: Seq<char>,
    x: Seq<char>,
    y: Seq<char>,
    z: Seq<char>,
    interval: Seq<char>,
    slot: Seq<char>,
    eip: Seq<char>,
    bc_sb: Seq<char>,
)
    requires
        data.len() >= 96,
        clean_block(a, RINGALERT),
        clean_block(b, RINGALERT),
        clean_block(c, RINGALERT),
        forall|k: int| 0 <= k < 16 ==> #[trigger] symbol(a, k) == (data[95 - 6 * k], data[94 - 6 * k]),
        forall|k: int| 0 <= k < 16 ==> #[trigger] symbol(b, k) == (data[93 - 6 * k], data[92 - 6 * k]),
        forall|k: int| 0 <= k < 16 ==> #[trigger] symbol(c, k) == (data[91 - 6 * k], data[90 - 6 * k]),
        sat.len() == 7,
        beam.len() == 6,
        x.len() == 12,
        y.len() == 12,
        z.len() == 12,
        interval.len() == 7,
        slot.len() == 1,
        eip.len() == 1,
        bc_sb.len() == 5,
        a.take(21) + b.take(21) + c.take(21) == sat + beam + x + y + z + interval + slot + eip + bc_sb,
    ensures
        ring_alert(data) matches Some(r) && {
            &&& r.sat == bit_word(sat)
            &&& r.beam == bit_word(beam)
            &&& r.pos_x == bit_word(x.skip(1)) - (if x[0] == '1' { 2048int } else { 0 })
            &&& r.pos_y == bit_word(y.skip(1)) - (if y[0] == '1' { 2048int } else { 0 })
            &&& r.pos_z == bit_word(z.skip(1)) - (if z[0] == '1' { 2048int } else { 0 })
            &&& r.interval == bit_word(interval)
            &&& r.slot == bit_word(slot)
            &&& r.eip == bit_word(eip)
            &&& r.bc_sb == bit_word(bc_sb)
            &&& data.len() < 160 ==> r.corrected == 0
        },
        block_data(read_out(data.take(96), 47, 3), RINGALERT, Effort::Strict) is Some,
        block_data(read_out(data.take(96), 46, 3), RINGALERT, Effort::Strict) is Some,
        block_data(read_out(data.take(96), 45, 3), RINGALERT, Effort::Strict) is Some,
{
    reveal_with_fuel(degree, 12);
    let g = data.take(96);
    lemma_spread_block(data, g, a, 47);
    lemma_spread_block(data, g, b, 46);
    lemma_spread_block(data, g, c, 45);
    lemma_clean_block(a, RINGALERT);
    lemma_clean_block(b, RINGALERT);
    lemma_clean_block(c, RINGALERT);
    let blocks = ira_blocks(data);
    assert(blocks[0] == a && blocks[1] == b && blocks[2] == c);
    let n = run_end(blocks, RINGALERT, 0);
    lemma_run_bounds(blocks, RINGALERT, 3);
    assert(run_end(blocks, RINGALERT, 0) == run_end(blocks, RINGALERT, 1));
    assert(run_end(blocks, RINGALERT, 1) == run_end(blocks, RINGALERT, 2));
    assert(run_end(blocks, RINGALERT, 2) == run_end(blocks, RINGALERT, 3));
    lemma_payload_prefix(blocks, RINGALERT, 3, n);
    let all = a.take(21) + b.take(21) + c.take(21);
    assert(payload(blocks, RINGALERT, 0) =~= Seq::<char>::empty());
    assert(payload(blocks, RINGALERT, 1) =~= a.take(21));
    assert(payload(blocks, RINGALERT, 2) =~= a.take(21) + b.take(21));
    assert(payload(blocks, RINGALERT, 3) =~= all);
    let p = payload(blocks, RINGALERT, n);
    assert(p.take(63) == all);
    assert forall|i: int| 0 <= i < 63 implies p[i] == all[i] by {
        assert(p.take(63)[i] == p[i]);
    }
    assert(p.subrange(0, 7) =~= sat);
    assert(p.subrange(7, 13) =~= beam);
    assert(p.subrange(13, 25) =~= x);
    assert(p.subrange(25, 37) =~= y);
    assert(p.subrange(37, 49) =~= z);
    assert(p.subrange(49, 56) =~= interval);
    assert(p.subrange(56, 57) =~= slot);
    assert(p.subrange(57, 58) =~= eip);
    assert(p.subrange(58, 63) =~= bc_sb);
    assert(p.subrange(14, 25) =~= x.skip(1));
    assert(p.subrange(26, 37) =~= y.skip(1));
    assert(p.subrange(38, 49) =~= z.skip(1));
    assert(p[13] == x[0] && p[25] == y[0] && p[37] == z[0]);
    lemma_bit_word_bound(x.skip(1));
    lemma_bit_word_bound(y.skip(1));
    lemma_bit_word_bound(z.skip(1));
    lemma_field_fits(bit_word(x.skip(1)), 11);
    lemma_field_fits(bit_word(y.skip(1)), 11);
    lemma_field_fits(bit_word(z.skip(1)), 11);
    if data.len() < 160 {
        let rest = data.skip(96);
        lemma_group_count(rest, rest.len() as int / 64);
        assert(rest.len() as int / 64 == 0);
        assert(blocks.len() == 3);
        assert(fixes(blocks, RINGALERT, 0) == 0);
        assert(fixes(blocks, RINGALERT, 1) == 0);
        assert(fixes(blocks, RINGALERT, 2) == 0);
        assert(fixes(blocks, RINGALERT, 3) == 0);
    }
}

proof fn lemma_spread_block(data: Seq<char>, g: Seq<char>, b: Seq<char>, i: int)
    requires
        data.len() >= 96,
        g == data.take(96),
        45 <= i <= 47,
        b.len() == 32,
        forall|k: int| 0 <= k < 16 ==> #[trigger] symbol(b, k) == (data[2 * i + 1 - 6 * k], data[2 * i - 6 * k]),
    ensures
        read_out(g, i, 3) == b,
{
    assert forall|k: int| 0 <= k < 16 implies #[trigger] symbol(b, k) == (g[2 * (i - 3 * k) + 1], g[2 * (i - 3 * k)]) by {}
    lemma_read_out_block(g, i, 3, b);
}

/// A broadcast sent without errors reads back. Behind a header of six digits, which must
/// be a multiple of its generator and whose first two are the type, stand two blocks
/// spread over 64 digits: the symbols of the first at every other place counted back from
/// the last, those of the second one place before. The data digits are, in this order,
/// the satellite (7), the beam (6), one that is not used, the slot, the blocking flag (1
/// each), 16 that are not used, the sub-band (5) and the channels (3).
pub proof fn law_broadcasts_read_back(
    data: Seq<char>,
    header: Seq<char>,
    a: Seq<char>,
    b: Seq<char>,
    sv_id: Seq<char>,
    beam_id: Seq<char>,
    r0: Seq<char>,
    slot: Seq<char>,
    sv_blocking: Seq<char>,
    r1: Seq<char>,
    acqu_subband: Seq<char>,
    acqu_channels: Seq<char>,
    r2: Seq<char>,
)
    requires
        data.len() > 70,
        header.len() == 6,
        data.take(6) == header,
        binary(header),
        clean_block(a, RINGALERT),
        clean_block(b, RINGALERT),
        forall|k: int| 0 <= k < 16 ==> #[trigger] symbol(a, k) == (data[69 - 4 * k], data[68 - 4 * k]),
        forall|k: int| 0 <= k < 16 ==> #[trigger] symbol(b, k) == (data[67 - 4 * k], data[66 - 4 * k]),
        sv_id.len() == 7,
        beam_id.len() == 6,
        r0.len() == 1,
        slot.len() == 1,
        sv_blocking.len() == 1,
        r1.len() == 16,
        acqu_subband.len() == 5,
        acqu_channels.len() == 3,
        r2.len() == 2,
        a.take(21) + b.take(21) == sv_id + beam_id + r0 + slot + sv_blocking + r1 + acqu_subband + acqu_channels + r2,
    ensures
        broadcast(data, Effort::Strict) is Some <==> gf2_rem(HDR, bit_word(header)) == 0,
        broadcast(data, Effort::Strict) matches Some(r) ==> {
            &&& r.bc_type == bit_word(header.take(2))
            &&& r.sv_id == bit_word(sv_id)
            &&& r.beam_id == bit_word(beam_id)
            &&& r.slot == bit_word(slot)
            &&& r.sv_blocking == bit_word(sv_blocking)
            &&& r.acqu_subband == bit_word(acqu_subband)
            &&& r.acqu_channels == bit_word(acqu_channels)
            &&& data.len() < 134 ==> r.corrected == 0
        },
{
    reveal_with_fuel(degree, 12);
    let g = data.subrange(6, 70);
    assert forall|k: int| 0 <= k < 16 implies #[trigger] symbol(a, k) == (g[2 * (31 - 2 * k) + 1], g[2 * (31 - 2 * k)]) by {}
    assert forall|k: int| 0 <= k < 16 implies #[trigger] symbol(b, k) == (g[2 * (30 - 2 * k) + 1], g[2 * (30 - 2 * k)]) by {}
    lemma_read_out_block(g, 31, 2, a);
    lemma_read_out_block(g, 30, 2, b);
    lemma_clean_block(a, RINGALERT);
    lemma_clean_block(b, RINGALERT);
    let body = data.subrange(6, shorter(262, data.len() as int));
    let groups = body.len() as int / 64;
    let blocks = group_blocks(body, groups);
    assert(groups >= 1);
    lemma_first_group(body, groups);
    assert(body.subrange(0, 64) =~= g);
    assert(blocks[0] == a && blocks[1] == b);
    let n = run_end(blocks, RINGALERT, 0);
    lemma_group_count(body, groups);
    lemma_run_bounds(blocks, RINGALERT, 2);
    assert(run_end(blocks, RINGALERT, 0) == run_end(blocks, RINGALERT, 1));
    assert(run_end(blocks, RINGALERT, 1) == run_end(blocks, RINGALERT, 2));
    lemma_payload_prefix(blocks, RINGALERT, 2, n);
    let all = a.take(21) + b.take(21);
    assert(payload(blocks, RINGALERT, 0) =~= Seq::<char>::empty());
    assert(payload(blocks, RINGALERT, 1) =~= a.take(21));
    assert(payload(blocks, RINGALERT, 2) =~= all);
    let p = payload(blocks, RINGALERT, n);
    assert(p.take(42) == all);
    assert forall|i: int| 0 <= i < 42 implies p[i] == all[i] by {
        assert(p.take(42)[i] == p[i]);
    }
    assert(p.subrange(0, 7) =~= sv_id);
    assert(p.subrange(7, 13) =~= beam_id);
    assert(p.subrange(13, 14) =~= r0);
    assert(p.subrange(14, 15) =~= slot);
    assert(p.subrange(15, 16) =~= sv_blocking);
    assert(p.subrange(16, 32) =~= r1);
    assert(p.subrange(32, 37) =~= acqu_subband);
    assert(p.subrange(37, 40) =~= acqu_channels);
    assert(p.subrange(40, 42) =~= r2);
    lemma_header_type(header);
    if data.len() < 134 {
        assert(groups == 1);
        assert(blocks.len() == 2);
        assert(fixes(blocks, RINGALERT, 0) == 0);
        assert(fixes(blocks, RINGALERT, 1) == 0);
        assert(fixes(blocks, RINGALERT, 2) == 0);
    }
}

proof fn lemma_first_group(data: Seq<char>, n: int)
    requires
        1 <= n,
        64 * n <= data.len(),
    ensures
        group_blocks(data, n).len() >= 2,
        group_blocks(data, n)[0] == read_out(data.subrange(0, 64), 31, 2),
        group_blocks(data, n)[1] == read_out(data.subrange(0, 64), 30, 2),
    decreases n,
{
    lemma_group_count(data, n);
    if n > 1 {
        lemma_first_group(data, n - 1);
        lemma_group_count(data, n - 1);
    } else {
        assert(group_blocks(data, 0) =~= Seq::<Seq<char>>::empty());
    }
}

proof fn lemma_header_type(h: Seq<char>)
    requires
        h.len() == 6,
    ensures
        bit_word(h) >> 4 == bit_word(h.take(2)),
{
    let (h5, h4, h3, h2) = (h.drop_last(), h.take(4), h.take(3), h.take(2));
    assert(h4 =~= h5.drop_last());
    assert(h3 =~= h4.drop_last());
    assert(h2 =~= h3.drop_last());
    lemma_bit_word_bound(h2);
    assert(bit_word(h) == (bit_word(h5) << 1) | bit_of(h.last()));
    assert(bit_word(h5) == (bit_word(h4) << 1) | bit_of(h5.last()));
    assert(bit_word(h4) == (bit_word(h3) << 1) | bit_of(h4.last()));
    assert(bit_word(h3) == (bit_word(h2) << 1) | bit_of(h3.last()));
    lemma_four_more(bit_word(h2), bit_of(h3.last()), bit_of(h4.last()), bit_of(h5.last()), bit_of(h.last()));
}

proof fn lemma_four_more(x: u32, a: u32, b: u32, c: u32, d: u32)
    by (bit_vector)
    requires
        x >> 2 == 0,
        a <= 1,
        b <= 1,
        c <= 1,
        d <= 1,
    ensures
        ((((((((x << 1) | a) << 1) | b) << 1) | c) << 1) | d) >> 4 == x,
{
}

/// The frequency decides which classes a downlink burst can have: above 1626.104 MHz
/// only ring alert, messaging and time, below 1625.979 MHz only broadcast, between them
/// none; without a frequency any.
pub proof fn law_frequency_gates(bits: Seq<char>, f: i64, effort: Effort)
    ensures
        class_of(bits, Some(f), effort) is Broadcast ==> f < 1_625_979_000,
        class_of(bits, Some(f), effort) is RingAlert ==> f > 1_626_104_000,
        class_of(bits, Some(f), effort) is Messaging ==> f > 1_626_104_000,
        class_of(bits, Some(f), effort) is TimeLocation ==> f > 1_626_104_000,
        f > 1_626_104_000 && !(class_of(bits, None, effort) is Broadcast) ==> class_of(bits, Some(f), effort)
            == class_of(bits, None, effort),
        f < 1_625_979_000 && class_of(bits, None, effort) is Broadcast ==> class_of(bits, Some(f), effort) == class_of(
            bits,
            None,
            effort,
        ),
{
}

/// A burst whose data are a ring alert without errors is classed as one where its
/// frequency allows it, unless its digits are also those of a messaging header or of a
/// time burst, which is two ones and 94 zeros.
pub proof fn law_ring_alerts_are_classed(data: Seq<char>, f: i64)
    requires
        f > 1_626_104_000,
        data.len() >= 96,
        ring_alert(data) is Some,
        block_data(read_out(data.take(96), 47, 3), RINGALERT, Effort::Strict) is Some,
        block_data(read_out(data.take(96), 46, 3), RINGALERT, Effort::Strict) is Some,
        block_data(read_out(data.take(96), 45, 3), RINGALERT, Effort::Strict) is Some,
        !"00110011111100110011001111110011"@.is_prefix_of(data),
        !(data[0] == '1' && data[1] == '1' && (forall|i: int| 2 <= i < 96 ==> #[trigger] data[i] == '0')),
    ensures
        class_of("001100000011000011110011"@ + data, Some(f), Effort::Strict) == Class::RingAlert(ring_alert(data)->0),
{
    let word = "001100000011000011110011"@;
    let bits = word + data;
    reveal_strlit("001100000011000011110011");
    assert(bits.take(24) =~= word);
    assert(word.is_prefix_of(bits)) by {
        assert(word =~= bits.take(word.len() as int));
    }
    lemma_word_bytes(bits);
    assert(after_word(bits) =~= data);
    let r = ring_alert(data)->0;
    assert((Ira { corrected: (r.corrected + 0u32) as u32, ..r }) == r);
}

proof fn lemma_word_bytes(bits: Seq<char>)
    requires
        bits.len() >= 24,
        ascii_text(bits.take(24)),
    ensures
        chars_before(bits, 24) == 24,
{
    lemma_front_bytes(bits, 24);
}

proof fn lemma_front_bytes(s: Seq<char>, n: int)
    requires
        0 <= n <= s.len(),
        ascii_text(s.take(n)),
    ensures
        chars_before(s, n) == n,
    decreases n,
{
    if n > 0 {
        assert(s.take(n)[0] as int <= 127);
        let t = s.drop_first();
        assert forall|i: int| 0 <= i < n - 1 implies (#[trigger] t.take(n - 1)[i]) as int <= 127 by {
            assert(s.take(n)[i + 1] as int <= 127);
        }
        lemma_front_bytes(t, n - 1);
    }
}

/// Undoes the DQPSK mapping: bit pairs to phase steps, which are added up.
pub fn de_dqpsk(bits: &str) -> (out: Vec<u8>)
    requires
        pairs_fit(encode_utf8(bits@)),
    ensures
        out@ == dqpsk_symbols(encode_utf8(bits@)),
{
    let b: &[u8] = bits.as_bytes();
    let len: usize = b.len();
    let n: usize = len / 2;
    let mut out: Vec<u8> = Vec::new();
    let mut k: usize = 0;
    while k < n
        invariant
            pairs_fit(b@),
            len == b@.len(),
            n == len / 2,
            k <= n,
            out@.len() == k,
            forall|i: int| 0 <= i < k ==> #[trigger] out@[i] == dqpsk_symbol(b@, i),
            forall|i: int| 0 <= i < k ==> #[trigger] out@[i] < 4,
        decreases n - k,
    {
        assert('0' as int <= b@[2 * (k as int)]);
        let v: u8 = (2 * (b[2 * k] - 48) + (b[2 * k + 1] - 48)) % 4;
        let step: u8 = if v == 0 {
            0
        } else if v == 1 {
            1
        } else if v == 2 {
            3
        } else {
            2
        };
        assert(step == phase_step(b@[2 * (k as int)], b@[2 * (k as int) + 1]));
        if k == 0 {
            out.push(step);
        } else {
            let prev: u8 = out[k - 1];
            out.push((prev + step) % 4);
        }
        k += 1;
    }
    assert(out@ =~= dqpsk_symbols(b@));
    out
}

/// Number of places in which two symbol sequences differ, over the shorter.
pub fn symbol_distance(a: &[u8], b: &[u8]) -> (d: u32)
    requires
        a@.len() <= u32::MAX || b@.len() <= u32::MAX,
    ensures
        d == differences(a@, b@, shorter(a@.len() as int, b@.len() as int)),
{
    let n: usize = if a.len() < b.len() { a.len() } else { b.len() };
    let mut d: u32 = 0;
    let mut i: usize = 0;
    while i < n
        invariant
            i <= n <= a@.len(),
            n <= b@.len(),
            n <= u32::MAX,
            d <= i,
            d == differences(a@, b@, i as int),
        decreases n - i,
    {
        if a[i] != b[i] {
            d += 1;
        }
        i += 1;
    }
    d
}

fn count_ones(s: &str) -> (n: usize)
    requires
        s@.len() <= 1000,
    ensures
        n == ones(s@),
        n <= s@.len(),
{
    let v: Vec<char> = chars_of(s);
    let mut n: usize = 0;
    let mut i: usize = 0;
    while i < v.len()
        invariant
            v@ == s@,
            i <= v@.len() <= 1000,
            n <= i,
            n == ones(s@.take(i as int)),
        decreases v@.len() - i,
    {
        assert(s@.take(i + 1).drop_last() == s@.take(i as int));
        if v[i] == '1' {
            n += 1;
        }
        i += 1;
    }
    assert(s@.take(s@.len() as int) == s@);
    n
}

/// The characters of the first `n` bytes of a text.
fn first_bytes(b: &[char], n: usize) -> (s: String)
    requires
        char_boundary(b@, n as int),
    ensures
        s@ == byte_range(b@, 0, n as int),
        byte_len(s@) == n,
        encode_utf8(s@).len() == n,
{
    proof {
        law_boundary_splits(b@, n as int);
        lemma_chars_before(b@, 0, n as int);
        assert(byte_range(b@, 0, n as int) =~= b@.take(chars_before(b@, n as int)));
        law_byte_len_is_encoded_length(byte_range(b@, 0, n as int));
    }
    let v: Vec<char> = bytes_part(b, 0, n);
    string_of(&v)
}

/// Whether a 32-bit block passes its BCH code and, at harder effort, its
/// parity bit.
///
/// Harder effort accepts blocks that can be repaired, and leans on the overall
/// parity of the 32nd bit to confirm that the repair was the right one.
pub fn block_ok(block: &str, poly: u32, effort: Effort) -> (r: Option<(String, u32)>)
    requires
        poly != 0,
        effort == Effort::Harder ==> distinguishes(poly),
        byte_len(block@) >= 32 ==> char_boundary(block@, 31),
    ensures
        r is Some <==> block_data(block@, poly, effort) is Some,
        r matches Some(b) ==> (b.0@, b.1) == block_data(block@, poly, effort)->0,
{
    let b: Vec<char> = chars_of(block);
    if !has_bytes(&b, 32) {
        return None;
    }
    let first: String = first_bytes(&b, 31);
    let head: &str = first.as_str();
    if effort == Effort::Strict {
        if gf2_remainder_bits(poly, head) != 0 {
            return None;
        }
        let r = repair(poly, head);
        match r.errors {
            Some(n) => {
                return Some((r.data, n as u32));
            },
            None => {
                return None;
            },
        }
    }
    let r = repair(poly, head);
    match r.errors {
        Some(n) => {
            let ghost fixed = word_bits(corrected(poly, bit_word(head@)).1);
            let at: usize = count_before(&b, 31);
            proof {
                assert(r.data@ + r.check@ == fixed);
                lemma_ones_concat(r.data@, r.check@);
                law_boundary_splits(b@, 31);
                assert(b@.take(b@.len() as int) == b@);
            }
            let total: usize = count_ones(r.data.as_str()) + count_ones(r.check.as_str())
                + if b[at] == '1' { 1usize } else { 0usize };
            if total % 2 != 0 {
                None
            } else {
                Some((r.data, n as u32))
            }
        },
        None => None,
    }
}

fn read_out_from(b: &[char], count: usize, stride: usize) -> (s: String)
    requires
        2 * count <= b@.len(),
        stride > 0,
    ensures
        s@ == read_out(b@, count - 1, stride as int),
{
    let n: usize = b.len();
    let mut s: String = String::new();
    let mut left: usize = count;
    while left > 0
        invariant
            n == b@.len(),
            2 * left <= n,
            stride > 0,
            s@ + read_out(b@, left - 1, stride as int) == read_out(b@, count - 1, stride as int),
        decreases left,
    {
        let i: usize = left - 1;
        let ghost before = s@;
        push_char(&mut s, b[2 * i + 1]);
        push_char(&mut s, b[2 * i]);
        left = if left > stride { left - stride } else { 0 };
        proof {
            let rest = read_out(b@, i - stride, stride as int);
            assert(before + read_out(b@, i as int, stride as int) == before + (seq![
                b@[2 * i + 1],
                b@[2 * i as int],
            ] + rest));
            assert(s@ + rest == before + (seq![b@[2 * i + 1], b@[2 * i as int]] + rest));
        }
    }
    assert(s@ + read_out(b@, -1, stride as int) == s@);
    s
}

/// Reverses each symbol pair, then reads out with stride 2: the 64-bit case.
pub fn de_interleave(group: &str) -> (r: (String, String))
    ensures
        r.0@ == read_out(group@, group@.len() as int / 2 - 1, 2),
        r.1@ == read_out(group@, group@.len() as int / 2 - 2, 2),
{
    let b: Vec<char> = chars_of(group);
    let n: usize = b.len() / 2;
    let first: String = read_out_from(&b, n, 2);
    let second: String = read_out_from(&b, if n > 0 { n - 1 } else { 0 }, 2);
    (first, second)
}

/// The stride-3 variant, used for the first 96 bits of a ring alert.
pub fn de_interleave3(group: &str) -> (r: (String, String, String))
    ensures
        r.0@ == read_out(group@, group@.len() as int / 2 - 1, 3),
        r.1@ == read_out(group@, group@.len() as int / 2 - 2, 3),
        r.2@ == read_out(group@, group@.len() as int / 2 - 3, 3),
{
    let b: Vec<char> = chars_of(group);
    let n: usize = b.len() / 2;
    let first: String = read_out_from(&b, n, 3);
    let second: String = read_out_from(&b, if n > 0 { n - 1 } else { 0 }, 3);
    let third: String = read_out_from(&b, if n > 1 { n - 2 } else { 0 }, 3);
    (first, second, third)
}

/// Splits into fixed-size chunks, returning the remainder separately.
pub fn slice_extra(data: &str, size: usize) -> (r: (Vec<String>, String))
    requires
        size > 0,
        ascii_text(data@),
    ensures
        r.0@.len() == data@.len() / (size as nat),
        forall|k: int|
            0 <= k < r.0@.len() ==> (#[trigger] r.0@[k])@ == data@.subrange(k * size, k * size + size),
        r.1@ == data@.skip(r.0@.len() * size),
{
    let len: usize = data.unicode_len();
    let mut out: Vec<String> = Vec::new();
    let mut i: usize = 0;
    while len - i >= size
        invariant
            size > 0,
            len == data@.len(),
            i <= len,
            i == out@.len() * size,
            forall|k: int|
                0 <= k < out@.len() ==> (#[trigger] out@[k])@ == data@.subrange(k * size, k * size + size),
        decreases len - i,
    {
        let chunk: &str = data.substring_char(i, i + size);
        let ghost k = out@.len();
        out.push(String::from_str(chunk));
        proof {
            assert((k + 1) * size == k * size + size) by (nonlinear_arith);
        }
        i += size;
    }
    let rest: &str = data.substring_char(i, len);
    proof {
        vstd::arithmetic::div_mod::lemma_fundamental_div_mod_converse(
            len as int,
            size as int,
            out@.len() as int,
            len - i,
        );
        assert(data@.subrange(i as int, len as int) == data@.skip(i as int));
    }
    (out, String::from_str(rest))
}

/// Value of a bit string.
pub fn bits_to_u32(bits: &str) -> (v: u32)
    ensures
        v == bit_word(bits@),
{
    bit_string_word(bits)
}

/// Sign-extends a magnitude preceded by its sign bit of weight 2048.
pub fn signed12(bits: &str, sign_at: usize, mag: core::ops::Range<usize>) -> (r: i32)
    requires
        ascii_text(bits@),
        sign_at < bits@.len(),
        mag.start <= mag.end <= bits@.len(),
        mag.end - mag.start <= 31,
    ensures
        r == field(bits@, mag.start as int, mag.end as int) - if bits@[sign_at as int] == '1' {
            2048int
        } else {
            0int
        },
{
    let m: u32 = bits_to_u32(bits.substring_char(mag.start, mag.end));
    proof {
        let s = bits@.subrange(mag.start as int, mag.end as int);
        lemma_bit_word_bound(s);
        lemma_field_fits(m, s.len() as u32);
    }
    let sign: i32 = if bits.get_char(sign_at) == '1' { 1 } else { 0 };
    (m as i32) - sign * 2048
}

proof fn lemma_field_fits(m: u32, n: u32)
    by (bit_vector)
    requires
        n <= 31,
        m >> n == 0,
    ensures
        m <= 0x7fff_ffff,
        n <= 11 ==> m <= 2047,
{
}

/// Runs 32-bit blocks through BCH and joins their data bits.
///
/// Stops at the first block that is too short or cannot be corrected and keeps
/// what came before: a corrupt block near the end of a burst does not throw
/// away what was received cleanly.
pub fn decode_blocks(blocks: &[String], poly: u32) -> (r: (String, u32, usize))
    requires
        poly != 0,
        distinguishes(poly),
        count_fits(texts(blocks@), poly),
        cuts_cleanly(texts(blocks@), poly),
    ensures
        r.2 == run_end(texts(blocks@), poly, 0),
        r.0@ == payload(texts(blocks@), poly, r.2 as int),
        r.1 == fixes(texts(blocks@), poly, r.2 as int),
        r.1 <= 2 * blocks@.len(),
        r.2 <= blocks@.len(),
{
    let ghost t = texts(blocks@);
    let mut out: String = String::new();
    let mut fixed: u32 = 0;
    let mut used: usize = 0;
    while used < blocks.len()
        invariant
            t == texts(blocks@),
            poly != 0,
            distinguishes(poly),
            count_fits(t, poly),
            cuts_cleanly(t, poly),
            used <= blocks@.len(),
            run_end(t, poly, 0) == run_end(t, poly, used as int),
            out@ == payload(t, poly, used as int),
            fixed == fixes(t, poly, used as int),
            fixed <= 2 * used,
        decreases blocks@.len() - used,
    {
        let b: Vec<char> = chars_of(blocks[used].as_str());
        assert(t[used as int] == b@);
        if !has_bytes(&b, 31) {
            return (out, fixed, used);
        }
        proof {
            lemma_run_bounds(t, poly, used as int);
        }
        let head: String = first_bytes(&b, 31);
        let r = repair(poly, head.as_str());
        proof {
            lemma_weight(poly, bit_word(head@));
            if r.errors is Some {
                lemma_run_bounds(t, poly, used + 1);
                lemma_fixes_grow(t, poly, used + 1, run_end(t, poly, 0));
                lemma_fixes_bound(t, poly, used + 1);
            }
        }
        match r.errors {
            None => {
                return (out, fixed, used);
            },
            Some(n) => {
                fixed += n as u32;
            },
        }
        out.append(r.data.as_str());
        used += 1;
    }
    (out, fixed, used)
}

/// Appends the two blocks of every 64-bit group.
fn push_group_blocks(data: &str, blocks: &mut Vec<String>)
    requires
        ascii_text(data@),
    ensures
        texts(final(blocks)@) == texts(old(blocks)@) + group_blocks(data@, data@.len() as int / 64),
{
    let parts = slice_extra(data, 64);
    let groups: Vec<String> = parts.0;
    let ghost start = texts(blocks@);
    let mut k: usize = 0;
    assert(start + group_blocks(data@, 0) == start);
    while k < groups.len()
        invariant
            k <= groups@.len(),
            groups@.len() == data@.len() / 64,
            forall|i: int|
                0 <= i < groups@.len() ==> (#[trigger] groups@[i])@ == data@.subrange(i * 64, i * 64 + 64),
            texts(blocks@) == start + group_blocks(data@, k as int),
        decreases groups@.len() - k,
    {
        let ghost before = blocks@;
        let pair = de_interleave(groups[k].as_str());
        proof {
            let g = data@.subrange(64 * (k as int), 64 * (k + 1));
            assert(groups@[k as int]@ == g);
            assert(g.len() == 64);
        }
        blocks.push(pair.0);
        blocks.push(pair.1);
        proof {
            let two = seq![pair.0@, pair.1@];
            assert(texts(blocks@) =~= texts(before) + two);
            assert(group_blocks(data@, k + 1) == group_blocks(data@, k as int) + two);
            assert(start + group_blocks(data@, k + 1) =~= (start + group_blocks(data@, k as int)) + two);
        }
        k += 1;
    }
}

/// Rebuilds the payload of a ring alert and unpacks its fields.
pub fn decode_ira(data: &str) -> (r: Option<Ira>)
    requires
        countable(data@),
    ensures
        r == ring_alert(data@),
        r is Some ==> r->0.corrected <= 2 * (3 + 2 * (data@.len() / 64)),
{
    let len: usize = data.unicode_len();
    if len < 96 {
        return None;
    }
    let mut blocks: Vec<String> = Vec::new();
    let head: &str = data.substring_char(0, 96);
    assert(head@ == data@.take(96));
    let first = de_interleave3(head);
    blocks.push(first.0);
    blocks.push(first.1);
    blocks.push(first.2);
    let tail: &str = data.substring_char(96, len);
    assert(tail@ == data@.skip(96));
    proof {
        assert(texts(blocks@) =~= seq![
            read_out(head@, 47, 3),
            read_out(head@, 46, 3),
            read_out(head@, 45, 3),
        ]);
        lemma_group_count(tail@, tail@.len() as int / 64);
        law_generators_distinguish(RINGALERT);
    }
    push_group_blocks(tail, &mut blocks);
    assert(texts(blocks@).len() == blocks@.len());
    assert(blocks@.len() == 3 + 2 * (tail@.len() as int / 64));
    assert(texts(blocks@) == ira_blocks(data@));
    proof {
        let t = texts(blocks@);
        lemma_ascii_groups(tail@, tail@.len() as int / 64);
        lemma_ascii_read_out(head@, 47, 3);
        lemma_ascii_read_out(head@, 46, 3);
        lemma_ascii_read_out(head@, 45, 3);
        assert forall|i: int| 0 <= i < t.len() implies ascii_text(#[trigger] t[i]) by {
            if i >= 3 {
                assert(t[i] == group_blocks(tail@, tail@.len() as int / 64)[i - 3]);
            }
        }
        lemma_ascii_cuts(t, RINGALERT);
        reveal_with_fuel(degree, 12);
        lemma_ascii_payload(t, RINGALERT, run_end(t, RINGALERT, 0));
    }
    let d = decode_blocks(blocks.as_slice(), RINGALERT);
    let p: &str = d.0.as_str();
    if p.unicode_len() < 63 {
        return None;
    }
    let pos_x: i32 = signed12(p, 13, 14..25);
    let pos_y: i32 = signed12(p, 25, 26..37);
    let pos_z: i32 = signed12(p, 37, 38..49);
    Some(
        Ira {
            sat: bits_to_u32(p.substring_char(0, 7)),
            beam: bits_to_u32(p.substring_char(7, 13)),
            pos_x,
            pos_y,
            pos_z,
            interval: bits_to_u32(p.substring_char(49, 56)),
            slot: bits_to_u32(p.substring_char(56, 57)),
            eip: bits_to_u32(p.substring_char(57, 58)),
            bc_sb: bits_to_u32(p.substring_char(58, 63)),
            corrected: d.1,
        },
    )
}

fn padded_header(header: &str) -> (s: String)
    requires
        header@.len() == 6,
        ascii_text(header@),
    ensures
        byte_len(s@) == 31,
        bit_word(s@) == bit_word(header@),
{
    let mut s: String = String::new();
    let mut i: usize = 0;
    while i < 25
        invariant
            i <= 25,
            s@.len() == i,
            forall|k: int| 0 <= k < i ==> #[trigger] s@[k] == '0',
        decreases 25 - i,
    {
        push_char(&mut s, '0');
        i += 1;
    }
    proof {
        lemma_padded(s@, header@);
    }
    s.append(header);
    proof {
        lemma_ascii_bytes(s@, 31);
    }
    s
}

/// Broadcast controller: a 6-bit BCH header, then 64-bit interleaved groups.
///
/// A broadcast burst is capped at 131 symbols.
pub fn decode_ibc(data: &str, effort: Effort) -> (r: Option<Ibc>)
    requires
        ascii_text(data@),
    ensures
        r == broadcast(data@, effort),
        r is Some ==> r->0.corrected <= 1000,
{
    let len: usize = data.unicode_len();
    if len <= 70 {
        return None;
    }
    let header: &str = data.substring_char(0, 6);
    assert(header@ == data@.take(6));
    if gf2_remainder_bits(HDR, header) != 0 {
        return None;
    }
    let pair = de_interleave(data.substring_char(6, 70));
    proof {
        law_generators_distinguish(RINGALERT);
        let g = data@.subrange(6, 70);
        lemma_ascii_read_out(g, 31, 2);
        lemma_ascii_read_out(g, 30, 2);
        lemma_ascii_bytes(pair.0@, 31);
        lemma_ascii_bytes(pair.1@, 31);
    }
    if block_ok(pair.0.as_str(), RINGALERT, effort).is_none() || block_ok(
        pair.1.as_str(),
        RINGALERT,
        effort,
    ).is_none() {
        return None;
    }
    let padded: String = padded_header(header);
    let hdr = repair(HDR, padded.as_str());
    let bc_type: u32 = bits_to_u32(hdr.data.as_str());
    proof {
        let w = bit_word(header@);
        lemma_bit_word_bound(header@);
        lemma_bit_step(0, w, 0, 0);
        lemma_word_prefix(w, 27);
        super::bch::lemma_header_degree();
    }
    let end: usize = if len < 262 { len } else { 262 };
    let body: &str = data.substring_char(6, end);
    let mut blocks: Vec<String> = Vec::new();
    push_group_blocks(body, &mut blocks);
    proof {
        lemma_group_count(body@, body@.len() as int / 64);
        assert(texts(blocks@) =~= group_blocks(body@, body@.len() as int / 64));
        assert(texts(blocks@).len() == blocks@.len());
        lemma_ascii_groups(body@, body@.len() as int / 64);
        lemma_ascii_cuts(texts(blocks@), RINGALERT);
    }
    let d = decode_blocks(blocks.as_slice(), RINGALERT);
    let p: &str = d.0.as_str();
    if d.2 == 0 || p.unicode_len() < 40 {
        return None;
    }
    Some(
        Ibc {
            bc_type,
            sv_id: bits_to_u32(p.substring_char(0, 7)),
            beam_id: bits_to_u32(p.substring_char(7, 13)),
            slot: bits_to_u32(p.substring_char(14, 15)),
            sv_blocking: bits_to_u32(p.substring_char(15, 16)),
            acqu_subband: bits_to_u32(p.substring_char(32, 37)),
            acqu_channels: bits_to_u32(p.substring_char(37, 40)),
            corrected: d.1,
        },
    )
}

/// Messaging: a 32-bit header, then 64-bit interleaved groups. Structure only.
pub fn decode_ms(data: &str) -> (r: Option<Ms>)
    requires
        countable(data@),
    ensures
        r == messaging(data@),
{
    let len: usize = data.unicode_len();
    if len <= 32 {
        return None;
    }
    let body: &str = data.substring_char(32, len);
    assert(body@ == data@.skip(32));
    let mut blocks: Vec<String> = Vec::new();
    push_group_blocks(body, &mut blocks);
    proof {
        lemma_group_count(body@, body@.len() as int / 64);
        assert(texts(blocks@) =~= group_blocks(body@, body@.len() as int / 64));
        assert(texts(blocks@).len() == blocks@.len());
        lemma_ascii_groups(body@, body@.len() as int / 64);
        lemma_ascii_cuts(texts(blocks@), MESSAGING);
        law_generators_distinguish(MESSAGING);
    }
    let d = decode_blocks(blocks.as_slice(), MESSAGING);
    Some(Ms { blocks: d.2, payload_bits: d.0.as_str().unicode_len(), corrected: d.1 })
}

/// Classifies a burst without consulting its frequency, at strict effort.
pub fn classify(bits: &str) -> (c: Class)
    requires
        readable(bits@, Effort::Strict),
    ensures
        c == class_of(bits@, None, Effort::Strict),
{
    classify_effort(bits, None, Effort::Strict)
}

/// Classifies a burst at strict effort, applying the channel-plan gates where
/// the frequency is known.
///
/// A burst is considered for the simplex classes only above `F_SIMPLEX_HZ` and
/// for the duplex classes only below `F_DUPLEX_HZ`. Without a frequency every
/// class is tried, and the BCH checks alone keep noise out.
pub fn classify_at(bits: &str, freq_hz: Option<i64>) -> (c: Class)
    requires
        readable(bits@, Effort::Strict),
    ensures
        c == class_of(bits@, freq_hz, Effort::Strict),
{
    classify_effort(bits, freq_hz, Effort::Strict)
}

fn access_of(bits: &str, effort: Effort) -> (a: Access)
    requires
        readable(bits@, effort),
    ensures
        a == access(bits@, effort),
        a matches Access::Downlink(e) ==> e <= 3,
{
    proof {
        lemma_word_lengths();
    }
    let b: Vec<char> = chars_of(bits);
    if has_prefix(&b, ACCESS_DOWNLINK) {
        return Access::Downlink(0);
    }
    if has_prefix(&b, ACCESS_UPLINK) {
        return Access::Other(Class::Uplink);
    }
    if has_prefix(&b, ACCESS_NEXT_DL) || has_prefix(&b, ACCESS_NEXT_UL) {
        return Access::Other(Class::Next);
    }
    if effort == Effort::Harder && has_bytes(&b, 24) {
        let head: String = first_bytes(&b, 24);
        let sym: Vec<u8> = de_dqpsk(head.as_str());
        let dl: u32 = symbol_distance(sym.as_slice(), &UW_DOWNLINK);
        let ul: u32 = symbol_distance(sym.as_slice(), &UW_UPLINK);
        let ndl: u32 = symbol_distance(sym.as_slice(), &NXT_UW_DOWNLINK);
        let nul: u32 = symbol_distance(sym.as_slice(), &NXT_UW_UPLINK);
        let mut best: u32 = dl;
        if ul < best {
            best = ul;
        }
        if ndl < best {
            best = ndl;
        }
        if nul < best {
            best = nul;
        }
        if best > UW_MAX_ERRORS {
            return Access::Other(Class::NoAccess);
        }
        if best == ul {
            return Access::Other(Class::Uplink);
        }
        if best == ndl || best == nul {
            return Access::Other(Class::Next);
        }
        return Access::Downlink(dl);
    }
    Access::Other(Class::NoAccess)
}

fn is_time_location(data: &str) -> (r: bool)
    ensures
        r == (data@.len() >= 96 && data@[0] == '1' && data@[1] == '1' && (forall|i: int|
            2 <= i < 96 ==> #[trigger] data@[i] == '0')),
{
    let b: Vec<char> = chars_of(data);
    if b.len() < 96 || b[0] != '1' || b[1] != '1' {
        return false;
    }
    let mut i: usize = 2;
    while i < 96
        invariant
            b@ == data@,
            b@.len() >= 96,
            2 <= i <= 96,
            forall|k: int| 2 <= k < i ==> #[trigger] data@[k] == '0',
        decreases 96 - i,
    {
        if b[i] != '0' {
            assert(data@[i as int] != '0');
            return false;
        }
        i += 1;
    }
    true
}

/// Classifies a burst with a chosen effort.
pub fn classify_effort(bits: &str, freq_hz: Option<i64>, effort: Effort) -> (c: Class)
    requires
        readable(bits@, effort),
    ensures
        c == class_of(bits@, freq_hz, effort),
{
    let uw_errors: u32 = match access_of(bits, effort) {
        Access::Other(c) => {
            return c;
        },
        Access::Downlink(e) => e,
    };
    let b: Vec<char> = chars_of(bits);
    let rest: Vec<char> = part(&b, count_before(&b, 24), b.len());
    assert(rest@ == after_word(bits@));
    let data: String = string_of(&rest);
    let simplex: bool = match freq_hz {
        Some(f) => f > F_SIMPLEX_HZ,
        None => true,
    };
    let duplex: bool = match freq_hz {
        Some(f) => f < F_DUPLEX_HZ,
        None => true,
    };
    downlink_class_of(data.as_str(), simplex, duplex, effort, uw_errors)
}

fn downlink_class_of(data: &str, simplex: bool, duplex: bool, effort: Effort, uw_errors: u32) -> (c: Class)
    requires
        countable(data@),
        uw_errors <= 3,
    ensures
        c == downlink_class(data@, simplex, duplex, effort, uw_errors),
{
    let b: Vec<char> = chars_of(data);
    if simplex && has_prefix(&b, HEADER_MESSAGING) {
        match decode_ms(data) {
            Some(ms) => {
                return Class::Messaging(ms);
            },
            None => {
                return Class::Messaging(Ms { blocks: 0, payload_bits: 0, corrected: 0 });
            },
        }
    }
    if simplex && is_time_location(data) {
        return Class::TimeLocation;
    }
    if duplex {
        match decode_ibc(data, effort) {
            Some(ibc) => {
                let mut out: Ibc = ibc;
                out.corrected = out.corrected + uw_errors;
                return Class::Broadcast(out);
            },
            None => {},
        }
    }
    if simplex && b.len() >= 96 {
        let head: &str = data.substring_char(0, 96);
        assert(head@ == data@.take(96));
        let t = de_interleave3(head);
        proof {
            law_generators_distinguish(RINGALERT);
            lemma_ascii_read_out(head@, 47, 3);
            lemma_ascii_read_out(head@, 46, 3);
            lemma_ascii_read_out(head@, 45, 3);
            lemma_ascii_bytes(t.0@, 31);
            lemma_ascii_bytes(t.1@, 31);
            lemma_ascii_bytes(t.2@, 31);
        }
        if block_ok(t.0.as_str(), RINGALERT, effort).is_some() && block_ok(
            t.1.as_str(),
            RINGALERT,
            effort,
        ).is_some() && block_ok(t.2.as_str(), RINGALERT, effort).is_some() {
            match decode_ira(data) {
                Some(ira) => {
                    let mut out: Ira = ira;
                    out.corrected = out.corrected + uw_errors;
                    return Class::RingAlert(out);
                },
                None => {},
            }
        }
    }
    Class::Unknown
}

} // verus!
