//! Mode S and ADS-B messages: parity check, the fields of extended squitters,
//! and the scan of a recording for messages.
use vstd::prelude::*;
use vstd::arithmetic::div_mod::{lemma_fundamental_div_mod, lemma_fundamental_div_mod_converse};
use vstd::arithmetic::power2::lemma2_to64;
use crate::bits::{ubits, unsigned_at};
use crate::text::{append_chars, append_text, decimal_chars, decimal_text, hex_chars, hex_text, string_of};

verus! {

/// Generator polynomial of the Mode S parity, without its leading term.
pub const CRC24_POLY: u32 = 0xFF_F409;

// ---------------------------------------------------------------- parity
/// Check register after a zero bit.
pub open spec fn crc24_shift(reg: u32) -> u32 {
    if (reg & 0x80_0000) != 0 {
        ((reg << 1) ^ CRC24_POLY) & 0xFF_FFFF
    } else {
        (reg << 1) & 0xFF_FFFF
    }
}

/// Check register after `n` zero bits.
pub open spec fn crc24_shifts(reg: u32, n: nat) -> u32
    decreases n,
{
    if n == 0 {
        reg
    } else {
        crc24_shift(crc24_shifts(reg, (n - 1) as nat))
    }
}

/// Check value of a message: each byte enters at the top of the register.
pub open spec fn crc24_of(msg: Seq<u8>) -> u32
    decreases msg.len(),
{
    if msg.len() == 0 {
        0
    } else {
        crc24_shifts(crc24_of(msg.drop_last()) ^ ((msg.last() as u32) << 16), 8)
    }
}

/// The three bytes of a check value, most significant first.
pub open spec fn crc24_bytes(c: u32) -> Seq<u8> {
    seq![((c >> 16) & 0xFF) as u8, ((c >> 8) & 0xFF) as u8, (c & 0xFF) as u8]
}

/// Check value of a message.
pub fn crc24(msg_bytes: &[u8]) -> (c: u32)
    ensures
        c == crc24_of(msg_bytes@),
{
    let mut reg: u32 = 0;
    let mut i: usize = 0;
    while i < msg_bytes.len()
        invariant
            i <= msg_bytes@.len(),
            reg == crc24_of(msg_bytes@.take(i as int)),
        decreases msg_bytes@.len() - i,
    {
        assert(msg_bytes@.take(i + 1).drop_last() =~= msg_bytes@.take(i as int));
        let start: u32 = reg ^ ((msg_bytes[i] as u32) << 16);
        reg = start;
        let mut n: usize = 0;
        while n < 8
            invariant
                n <= 8,
                reg == crc24_shifts(start, n as nat),
            decreases 8 - n,
        {
            if (reg & 0x80_0000) != 0 {
                reg = ((reg << 1) ^ CRC24_POLY) & 0xFF_FFFF;
            } else {
                reg = (reg << 1) & 0xFF_FFFF;
            }
            n += 1;
        }
        i += 1;
    }
    assert(msg_bytes@.take(msg_bytes@.len() as int) =~= msg_bytes@);
    reg
}

proof fn lemma_register(c: u32, n: u32)
    by (bit_vector)
    ensures
        crc24_shift(c) <= 0xFF_FFFF,
        c <= 0xFFFF && n < 8 ==> crc24_shift(c << n) == c << ((n + 1) as u32),
        c << 0u32 == c,
        c <= 0xFF_FFFF ==> c ^ (((((c >> 16) & 0xFF) as u8) as u32) << 16) == c & 0xFFFF,
        ((c & 0xFFFF) << 8) ^ (((((c >> 8) & 0xFF) as u8) as u32) << 16) == (c & 0xFF) << 8,
        (((c & 0xFF) << 8) << 8) ^ ((((c & 0xFF) as u8) as u32) << 16) == 0,
        c & 0xFFFF <= 0xFFFF,
        (c & 0xFF) << 8 <= 0xFFFF,
        0u32 << 8u32 == 0,
{
}

proof fn lemma_small_shifts(x: u32, n: nat)
    requires
        x <= 0xFFFF,
        n <= 8,
    ensures
        crc24_shifts(x, n) == x << (n as u32),
    decreases n,
{
    if n > 0 {
        lemma_small_shifts(x, (n - 1) as nat);
        lemma_register(x, (n - 1) as u32);
    } else {
        lemma_register(x, 0);
    }
}

/// A check value has 24 bits.
pub proof fn law_crc_has_24_bits(msg: Seq<u8>)
    ensures
        crc24_of(msg) <= 0xFF_FFFF,
{
    if msg.len() > 0 {
        lemma_register(crc24_shifts(crc24_of(msg.drop_last()) ^ ((msg.last() as u32) << 16), 7), 0);
    }
}

/// A message followed by its own check value checks to zero.
pub proof fn law_appended_crc_checks(msg: Seq<u8>)
    ensures
        crc24_of(msg + crc24_bytes(crc24_of(msg))) == 0,
{
    let c = crc24_of(msg);
    let t = crc24_bytes(c);
    law_crc_has_24_bits(msg);
    lemma_register(c, 0);
    let m1 = msg.push(t[0]);
    let m2 = m1.push(t[1]);
    let m3 = m2.push(t[2]);
    assert(m3 =~= msg + t);
    assert(m1.drop_last() =~= msg && m2.drop_last() =~= m1 && m3.drop_last() =~= m2);
    lemma_small_shifts(c & 0xFFFF, 8);
    lemma_small_shifts((c & 0xFF) << 8, 8);
    lemma_small_shifts(0, 8);
    assert(crc24_of(m1) == (c & 0xFFFF) << 8);
    assert(crc24_of(m2) == ((c & 0xFF) << 8) << 8);
}

/// The sum over GF(2) of two messages, byte by byte.
pub open spec fn byte_sum(a: Seq<u8>, b: Seq<u8>) -> Seq<u8> {
    Seq::new(a.len(), |i: int| a[i] ^ b[i])
}

proof fn lemma_register_sum(x: u32, y: u32, a: u8, b: u8)
    by (bit_vector)
    ensures
        crc24_shift(x ^ y) == crc24_shift(x) ^ crc24_shift(y),
        (x ^ y) ^ (((a ^ b) as u32) << 16) == (x ^ ((a as u32) << 16)) ^ (y ^ ((b as u32) << 16)),
        0u32 ^ 0u32 == 0,
        0u32 ^ ((0u8 as u32) << 16) == 0,
        crc24_shift(0) == 0,
        x <= 0xFF_FFFF && y <= 0xFF_FFFF && crc24_shift(x) == crc24_shift(y) ==> x == y,
        x <= 0xFF_FFFF ==> x ^ ((a as u32) << 16) <= 0xFF_FFFF,
        ((a as u32) << 16) <= 0xFF_FFFF,
        ((a as u32) << 8) <= 0xFFFF,
        (((a as u32) << 8) << 8) == (a as u32) << 16,
        ((a as u32) ^ ((b as u32) << 8)) <= 0xFFFF,
        (((a as u32) ^ ((b as u32) << 8)) << 8) == ((a as u32) << 8) ^ ((b as u32) << 16),
        ((a as u32) << 16) == (x & 0xFF) ^ ((y & 0xFF) << 8) ==> a == 0 && x & 0xFF == 0 && y & 0xFF == 0,
        (a as u32) & 0xFF == a,
        x ^ y == 0 ==> x == y,
        (x ^ y) ^ y == x,
        x ^ x == 0,
        0 ^ x == x,
        x ^ 0 == x,
        0u32 ^ ((a as u32) << 16) == (a as u32) << 16,
        a ^ b == 0 ==> a == b,
        a ^ a == 0,
        a ^ 0 == a,
        0 ^ a == a,
        x <= 0xFF_FFFF ==> ((x >> 16) & 0xFF) * 0x1_0000 + ((x >> 8) & 0xFF) * 0x100 + (x & 0xFF) == x,
        ((x >> 16) & 0xFF) <= 255 && ((x >> 8) & 0xFF) <= 255 && (x & 0xFF) <= 255,
{
}

proof fn lemma_shifts_of_a_sum(x: u32, y: u32, n: nat)
    ensures
        crc24_shifts(x ^ y, n) == crc24_shifts(x, n) ^ crc24_shifts(y, n),
    decreases n,
{
    if n > 0 {
        lemma_shifts_of_a_sum(x, y, (n - 1) as nat);
        lemma_register_sum(crc24_shifts(x, (n - 1) as nat), crc24_shifts(y, (n - 1) as nat), 0, 0);
    }
}

/// The check value of a sum of two messages is the sum of their check values.
pub proof fn law_crc_of_a_sum(a: Seq<u8>, b: Seq<u8>)
    requires
        a.len() == b.len(),
    ensures
        crc24_of(byte_sum(a, b)) == crc24_of(a) ^ crc24_of(b),
    decreases a.len(),
{
    lemma_register_sum(0, 0, 0, 0);
    if a.len() > 0 {
        let (x, y) = (crc24_of(a.drop_last()), crc24_of(b.drop_last()));
        law_crc_of_a_sum(a.drop_last(), b.drop_last());
        assert(byte_sum(a, b).drop_last() =~= byte_sum(a.drop_last(), b.drop_last()));
        lemma_register_sum(x, y, a.last(), b.last());
        lemma_shifts_of_a_sum(x ^ ((a.last() as u32) << 16), y ^ ((b.last() as u32) << 16), 8);
    }
}

/// Zero bytes in front of a message do not change its check value.
pub proof fn law_crc_ignores_leading_zeros(zeros: Seq<u8>, msg: Seq<u8>)
    requires
        forall|i: int| 0 <= i < zeros.len() ==> #[trigger] zeros[i] == 0,
    ensures
        crc24_of(zeros + msg) == crc24_of(msg),
    decreases zeros.len() + msg.len(),
{
    lemma_register_sum(0, 0, 0, 0);
    if msg.len() > 0 {
        assert((zeros + msg).drop_last() =~= zeros + msg.drop_last());
        law_crc_ignores_leading_zeros(zeros, msg.drop_last());
    } else if zeros.len() > 0 {
        assert(zeros + msg =~= zeros);
        assert(zeros.drop_last() + msg =~= zeros.drop_last());
        law_crc_ignores_leading_zeros(zeros.drop_last(), msg);
        lemma_shifts_of_zero(8);
    }
}

proof fn lemma_shifts_apart(x: u32, y: u32, n: nat)
    requires
        x <= 0xFF_FFFF,
        y <= 0xFF_FFFF,
        crc24_shifts(x, n) == crc24_shifts(y, n),
    ensures
        x == y,
    decreases n,
{
    if n > 0 {
        let (p, q) = (crc24_shifts(x, (n - 1) as nat), crc24_shifts(y, (n - 1) as nat));
        lemma_shifts_bound(x, (n - 1) as nat);
        lemma_shifts_bound(y, (n - 1) as nat);
        lemma_register_sum(p, q, 0, 0);
        lemma_shifts_apart(x, y, (n - 1) as nat);
    }
}

proof fn lemma_shifts_bound(x: u32, n: nat)
    requires
        x <= 0xFF_FFFF,
    ensures
        crc24_shifts(x, n) <= 0xFF_FFFF,
    decreases n,
{
    if n > 0 {
        lemma_register(crc24_shifts(x, (n - 1) as nat), 0);
    }
}

/// Three bytes check to zero only if they are all zero.
proof fn lemma_three_bytes(a: u8, b: u8, c: u8)
    requires
        crc24_of(seq![a, b, c]) == 0,
    ensures
        a == 0 && b == 0 && c == 0,
{
    let (one, two, three) = (seq![a], seq![a, b], seq![a, b, c]);
    assert(one.drop_last() =~= Seq::<u8>::empty());
    assert(two.drop_last() =~= one);
    assert(three.drop_last() =~= two);
    let (r0, r1, r2) = (crc24_of(Seq::<u8>::empty()), crc24_of(one), crc24_of(two));
    let (va, vb, vc) = (a as u32, b as u32, c as u32);
    law_crc_has_24_bits(one);
    law_crc_has_24_bits(two);
    lemma_register_sum(0, 0, a, 0);
    lemma_register_sum(r1, vb << 16, b, 0);
    lemma_register_sum(r2, vc << 16, c, 0);
    lemma_shifts_of_zero(8);
    assert(r1 == crc24_shifts(va << 16, 8));
    lemma_shifts_apart(r2 ^ (vc << 16), 0, 8);
    assert(r2 == vc << 16);
    lemma_small_shifts(vc << 8, 8);
    lemma_register_sum(0, 0, c, b);
    lemma_shifts_apart(r1 ^ (vb << 16), vc << 8, 8);
    lemma_register_sum(r1, vb << 16, 0, 0);
    lemma_register_sum(vc << 8, vb << 16, 0, 0);
    assert(r1 == (vc << 8) ^ (vb << 16));
    lemma_small_shifts(vc ^ (vb << 8), 8);
    lemma_shifts_apart(va << 16, vc ^ (vb << 8), 8);
    lemma_register_sum(vc, vb, a, 0);
    lemma_register_sum(0, 0, b, 0);
}

/// Three bytes behind a message check to zero together with it exactly if they are its
/// check value.
pub proof fn law_only_its_own_crc_checks(msg: Seq<u8>, t: Seq<u8>)
    requires
        t.len() == 3,
    ensures
        crc24_of(msg + t) == 0 <==> t[0] * 0x1_0000 + t[1] * 0x100 + t[2] == crc24_of(msg),
{
    let c = crc24_of(msg);
    let own = crc24_bytes(c);
    law_appended_crc_checks(msg);
    law_crc_has_24_bits(msg);
    lemma_register_sum(c, 0, 0, 0);
    let zeros = Seq::new(msg.len(), |i: int| 0u8);
    let diff = byte_sum(t, own);
    assert(byte_sum(msg + t, msg + own) =~= zeros + diff) by {
        assert forall|i: int| 0 <= i < msg.len() implies msg[i] ^ msg[i] == 0u8 by {
            lemma_register_sum(0, 0, msg[i], 0);
        }
    }
    law_crc_of_a_sum(msg + t, msg + own);
    law_crc_ignores_leading_zeros(zeros, diff);
    lemma_register_sum(crc24_of(msg + t), 0, 0, 0);
    lemma_register_sum(0, 0, t[0], own[0]);
    lemma_register_sum(0, 0, t[1], own[1]);
    lemma_register_sum(0, 0, t[2], own[2]);
    assert(diff =~= seq![diff[0], diff[1], diff[2]]);
    if crc24_of(msg + t) == 0 {
        lemma_three_bytes(diff[0], diff[1], diff[2]);
        assert(t =~= own);
    }
    if t[0] * 0x1_0000 + t[1] * 0x100 + t[2] == c {
        assert(t =~= own);
    }
}

/// The check is division by the polynomial with the bits of 1FFF409: adding that
/// pattern to a message, at any bit, does not change the check value.
pub proof fn law_generator_multiples_do_not_count(msg: Seq<u8>, at: int, s: u32)
    requires
        s < 8,
        0 <= at,
        at + 4 <= msg.len(),
    ensures
        ({
            let g = 0x1FF_F409u32 << s;
            let pattern = Seq::new(
                msg.len(),
                |i: int|
                    if i == at {
                        (g >> 24) as u8
                    } else if i == at + 1 {
                        ((g >> 16) & 0xFF) as u8
                    } else if i == at + 2 {
                        ((g >> 8) & 0xFF) as u8
                    } else if i == at + 3 {
                        (g & 0xFF) as u8
                    } else {
                        0u8
                    },
            );
            crc24_of(byte_sum(msg, pattern)) == crc24_of(msg)
        }),
{
    let g = 0x1FF_F409u32 << s;
    let four = seq![(g >> 24) as u8, ((g >> 16) & 0xFF) as u8, ((g >> 8) & 0xFF) as u8, (g & 0xFF) as u8];
    let zeros = Seq::new(at as nat, |i: int| 0u8);
    let pattern = Seq::new(
        msg.len(),
        |i: int|
            if i == at {
                (g >> 24) as u8
            } else if i == at + 1 {
                ((g >> 16) & 0xFF) as u8
            } else if i == at + 2 {
                ((g >> 8) & 0xFF) as u8
            } else if i == at + 3 {
                (g & 0xFF) as u8
            } else {
                0u8
            },
    );
    lemma_generator_byte(s);
    law_crc_of_a_sum(msg, pattern);
    law_crc_ignores_leading_zeros(zeros, four);
    assert(pattern.take(at + 4) =~= zeros + four);
    lemma_zeros_behind(pattern, at + 4);
    lemma_register_sum(crc24_of(msg), 0, 0, 0);
}

proof fn lemma_zeros_behind(msg: Seq<u8>, n: int)
    requires
        0 <= n <= msg.len(),
        crc24_of(msg.take(n)) == 0,
        forall|i: int| n <= i < msg.len() ==> #[trigger] msg[i] == 0,
    ensures
        crc24_of(msg) == 0,
    decreases msg.len() - n,
{
    if n < msg.len() {
        assert(msg.take(n + 1).drop_last() =~= msg.take(n));
        assert(msg.take(n + 1).last() == msg[n]);
        lemma_register_sum(0, 0, 0, 0);
        lemma_shifts_of_zero(8);
        lemma_zeros_behind(msg, n + 1);
    } else {
        assert(msg.take(n) =~= msg);
    }
}

proof fn lemma_generator_byte(s: u32)
    requires
        s < 8,
    ensures
        ({
            let g = 0x1FF_F409u32 << s;
            crc24_of(seq![(g >> 24) as u8, ((g >> 16) & 0xFF) as u8, ((g >> 8) & 0xFF) as u8, (g & 0xFF) as u8]) == 0
        }),
{
    let g = 0x1FF_F409u32 << s;
    let b = (g >> 24) as u8;
    let one = seq![b];
    let r0 = 0 ^ ((b as u32) << 16);
    reveal_with_fuel(crc24_shifts, 9);
    assert(one.drop_last() =~= Seq::<u8>::empty());
    let r1 = crc24_shift(r0);
    let r2 = crc24_shift(r1);
    let r3 = crc24_shift(r2);
    let r4 = crc24_shift(r3);
    let r5 = crc24_shift(r4);
    let r6 = crc24_shift(r5);
    let r7 = crc24_shift(r6);
    let r8 = crc24_shift(r7);
    assert(crc24_of(Seq::<u8>::empty()) == 0);
    assert(crc24_of(one) == r8);
    lemma_generator_steps(s, r0, r1, r2, r3, r4, r5, r6, r7, r8);
    let own = crc24_bytes(r8);
    law_appended_crc_checks(one);
    assert(one + own =~= seq![b, ((g >> 16) & 0xFF) as u8, ((g >> 8) & 0xFF) as u8, (g & 0xFF) as u8]);
}

proof fn lemma_generator_steps(s: u32, r0: u32, r1: u32, r2: u32, r3: u32, r4: u32, r5: u32, r6: u32, r7: u32, r8: u32)
    by (bit_vector)
    requires
        s < 8,
        r0 == 0 ^ ((((0x1FF_F409u32 << s) >> 24) as u8) as u32) << 16,
        r1 == crc24_shift(r0),
        r2 == crc24_shift(r1),
        r3 == crc24_shift(r2),
        r4 == crc24_shift(r3),
        r5 == crc24_shift(r4),
        r6 == crc24_shift(r5),
        r7 == crc24_shift(r6),
        r8 == crc24_shift(r7),
    ensures
        r8 == (0x1FF_F409u32 << s) & 0xFF_FFFF,
        (r8 >> 16) & 0xFF == ((0x1FF_F409u32 << s) >> 16) & 0xFF,
        (r8 >> 8) & 0xFF == ((0x1FF_F409u32 << s) >> 8) & 0xFF,
        r8 & 0xFF == (0x1FF_F409u32 << s) & 0xFF,
{
}

proof fn lemma_shifts_of_zero(n: nat)
    ensures
        crc24_shifts(0, n) == 0,
    decreases n,
{
    lemma_register_sum(0, 0, 0, 0);
    if n > 0 {
        lemma_shifts_of_zero((n - 1) as nat);
    }
}

// ---------------------------------------------------------------- fields
/// Six-bit group `k` of a run of bytes.
pub open spec fn sextet(b: Seq<u8>, k: int) -> int {
    let g = 3 * (k / 4);
    let w = b[g] * 0x1_0000 + b[g + 1] * 0x100 + b[g + 2];
    if k % 4 == 0 { (w / 262144) % 64 } else if k % 4 == 1 { (w / 4096) % 64 } else if k % 4 == 2 { (w / 64) % 64 } else {
        w % 64
    }
}

/// The letter or digit of a six-bit code.
pub open spec fn letter(code: int) -> Option<char> {
    if 1 <= code <= 26 {
        Some(('A' as int + code - 1) as char)
    } else if 48 <= code <= 57 {
        Some(code as char)
    } else {
        None
    }
}

/// The letters and digits of the first `n` codes of a call sign.
pub open spec fn call_letters(b: Seq<u8>, n: int) -> Seq<char>
    decreases n,
{
    if n <= 0 {
        Seq::empty()
    } else {
        match letter(sextet(b, n - 1)) {
            Some(c) => call_letters(b, n - 1).push(c),
            None => call_letters(b, n - 1),
        }
    }
}

/// Call sign of an identification payload.
pub open spec fn callsign_of(payload: Seq<u8>) -> Option<Seq<char>> {
    let t = call_letters(payload.subrange(1, 7), 8);
    if payload.len() >= 7 && t.len() > 0 {
        Some(t)
    } else {
        None
    }
}

pub open spec fn opt_text(s: Option<String>) -> Option<Seq<char>> {
    match s {
        Some(t) => Some(t@),
        None => None,
    }
}

fn letter_of(code: u32) -> (r: Option<char>)
    requires
        code < 64,
    ensures
        r == letter(code as int),
{
    if 1 <= code && code <= 26 {
        Some((65 + (code as u8 - 1)) as char)
    } else if 48 <= code && code <= 57 {
        Some((code as u8) as char)
    } else {
        None
    }
}

/// Call sign of an identification payload; codes that stand for no letter or
/// digit are left out, and there is none if nothing is left.
pub fn decode_callsign(payload: &[u8]) -> (r: Option<String>)
    ensures
        opt_text(r) == callsign_of(payload@),
{
    if payload.len() < 7 {
        return None;
    }
    let ghost b = payload@.subrange(1, 7);
    let mut out: Vec<char> = Vec::new();
    let mut k: usize = 0;
    while k < 8
        invariant
            k <= 8,
            payload@.len() >= 7,
            b == payload@.subrange(1, 7),
            out@ == call_letters(b, k as int),
        decreases 8 - k,
    {
        let g: usize = 1 + 3 * (k / 4);
        let w: u32 = payload[g] as u32 * 0x1_0000 + payload[g + 1] as u32 * 0x100 + payload[g + 2] as u32;
        let code: u32 = if k % 4 == 0 { (w / 262144) % 64 } else if k % 4 == 1 { (w / 4096) % 64 } else if k % 4 == 2 {
            (w / 64) % 64
        } else { w % 64 };
        assert(code == sextet(b, k as int));
        match letter_of(code) {
            Some(c) => {
                out.push(c);
            },
            None => {},
        }
        k += 1;
    }
    if out.len() == 0 {
        None
    } else {
        Some(string_of(out.as_slice()))
    }
}

/// Altitude of an airborne position payload, in feet: steps of 25 ft from
/// -1000 ft, when the Q bit says so.
pub open spec fn altitude_of(payload: Seq<u8>) -> Option<int> {
    let raw = payload[1] * 16 + payload[2] / 16;
    if payload.len() >= 3 && (raw / 16) % 2 == 1 {
        Some(25 * ((raw / 32) * 16 + raw % 16) - 1000)
    } else {
        None
    }
}

/// Altitude of an airborne position payload, in feet.
pub fn decode_altitude(payload: &[u8]) -> (r: Option<i32>)
    ensures
        r is Some <==> altitude_of(payload@) is Some,
        r matches Some(a) ==> a == altitude_of(payload@)->0,
{
    if payload.len() < 3 {
        return None;
    }
    let raw: i32 = payload[1] as i32 * 16 + (payload[2] / 16) as i32;
    if (raw / 16) % 2 == 1 {
        Some(25 * ((raw / 32) * 16 + raw % 16) - 1000)
    } else {
        None
    }
}

/// A component of the ground speed, from its sign bit and its field, which is
/// one more than the speed in knots and zero when unknown.
pub open spec fn component(sign: int, raw: int) -> int {
    if sign == 1 {
        1 - raw
    } else {
        raw - 1
    }
}

/// East and north components of a ground speed payload, in knots.
pub open spec fn velocity_of(p: Seq<u8>) -> Option<(int, int)> {
    let ew = (p[1] % 4) * 256 + p[2];
    let ns = (p[3] % 128) * 8 + p[4] / 32;
    if p.len() >= 7 && (p[0] % 8 == 1 || p[0] % 8 == 2) && ew >= 1 && ns >= 1 {
        Some((component((p[1] as int / 4) % 2, ew), component(p[3] as int / 128, ns)))
    } else {
        None
    }
}

/// Components of a ground speed.
#[derive(Debug, Clone, Copy, PartialEq, Eq)]
pub struct GroundVelocity {
    pub east_kts: i32,
    pub north_kts: i32,
}

/// Whether `s` is the whole number nearest to the root of `n`.
pub open spec fn nearest_root(s: int, n: int) -> bool {
    0 <= s && (s == 0 || s * s - s < n) && n <= s * s + s
}

/// East and north components of a ground speed payload.
pub fn decode_velocity(payload: &[u8]) -> (r: Option<GroundVelocity>)
    ensures
        r is Some <==> velocity_of(payload@) is Some,
        r matches Some(v) ==> (v.east_kts as int, v.north_kts as int) == velocity_of(payload@)->0
            && v.in_range(),
{
    if payload.len() < 7 {
        return None;
    }
    let sub_type: u8 = payload[0] % 8;
    if sub_type != 1 && sub_type != 2 {
        return None;
    }
    let ew: i32 = (payload[1] % 4) as i32 * 256 + payload[2] as i32;
    let ns: i32 = (payload[3] % 128) as i32 * 8 + (payload[4] / 32) as i32;
    if ew < 1 || ns < 1 {
        return None;
    }
    let east: i32 = if (payload[1] / 4) % 2 == 1 { 1 - ew } else { ew - 1 };
    let north: i32 = if payload[3] / 128 == 1 { 1 - ns } else { ns - 1 };
    Some(GroundVelocity { east_kts: east, north_kts: north })
}

impl GroundVelocity {
    pub open spec fn in_range(self) -> bool {
        -1022 <= self.east_kts <= 1022 && -1022 <= self.north_kts <= 1022
    }

    pub open spec fn squared(self) -> int {
        self.east_kts * self.east_kts + self.north_kts * self.north_kts
    }

    /// Ground speed in whole knots.
    pub fn speed_kts(&self) -> (s: u16)
        requires
            self.in_range(),
        ensures
            nearest_root(s as int, self.squared()),
    {
        let e: i32 = self.east_kts;
        let n: i32 = self.north_kts;
        assert(0 <= e * e <= 1022 * 1022) by (nonlinear_arith)
            requires
                -1022 <= e <= 1022,
        ;
        assert(0 <= n * n <= 1022 * 1022) by (nonlinear_arith)
            requires
                -1022 <= n <= 1022,
        ;
        let total: i32 = e * e + n * n;
        let mut s: i32 = 0;
        assert(1500 * 1500 + 1500 >= 2 * 1022 * 1022) by (nonlinear_arith);
        while s < 1500 && s * s + s < total
            invariant
                0 <= s <= 1500,
                s * s <= 1500 * 1500,
                s == 0 || s * s - s < total,
                total <= 2 * 1022 * 1022,
            decreases 1500 - s,
        {
            assert((s + 1) * (s + 1) == s * s + 2 * s + 1) by (nonlinear_arith);
            assert((s + 1) * (s + 1) <= 1500 * 1500) by (nonlinear_arith)
                requires
                    0 <= s < 1500,
            ;
            s += 1;
        }
        s as u16
    }
}

// --------------------------------------------------------------- messages
/// A message that passed its parity check. The heading is left to whoever
/// needs it: it is the direction of `velocity`.
#[derive(Debug, Clone)]
pub struct AdsbFrame {
    /// downlink format
    pub df: u8,
    /// aircraft address in hexadecimal
    pub icao: String,
    /// type code of an extended squitter
    pub msg_type: u8,
    pub payload_hex: String,
    pub callsign: Option<String>,
    pub altitude_ft: Option<i32>,
    pub speed_kts: Option<u16>,
    pub velocity: Option<GroundVelocity>,
}

/// Whether messages of this format have this length.
pub open spec fn format_ok(df: int, nbytes: int) -> bool {
    if nbytes == 14 {
        df == 16 || df == 17 || df == 18 || df == 19 || df == 20 || df == 21 || df == 24
    } else {
        nbytes == 7 && (df == 0 || df == 4 || df == 5 || df == 11)
    }
}

/// The last three bytes as a number.
pub open spec fn parity_field(m: Seq<u8>) -> int {
    let n = m.len() as int;
    m[n - 3] * 0x1_0000 + m[n - 2] * 0x100 + m[n - 1]
}

/// Whether a run of bytes is a message: its length fits its format, and its
/// last three bytes are the check value of the others.
pub open spec fn is_message(m: Seq<u8>) -> bool {
    (m.len() == 14 || m.len() == 7) && format_ok(m[0] as int / 8, m.len() as int) && crc24_of(m.take(m.len() - 3))
        == parity_field(m)
}

pub open spec fn extended(m: Seq<u8>) -> bool {
    m[0] / 8 == 17 || m[0] / 8 == 18
}

pub open spec fn type_code(m: Seq<u8>) -> int {
    m[4] as int / 8
}

pub open spec fn payload_of(m: Seq<u8>) -> Seq<u8> {
    m.subrange(4, m.len() - 3)
}

/// Whether a frame holds what the message says.
pub open spec fn frame_of(f: AdsbFrame, m: Seq<u8>) -> bool {
    let code = type_code(m);
    let p = payload_of(m);
    &&& f.df == m[0] / 8
    &&& f.icao@ == hex_text(m.subrange(1, 4))
    &&& f.msg_type == code
    &&& f.payload_hex@ == hex_text(p)
    &&& opt_text(f.callsign) == (if extended(m) && 1 <= code <= 4 { callsign_of(p) } else { None })
    &&& (f.altitude_ft is Some <==> extended(m) && (9 <= code <= 18 || 20 <= code <= 22) && altitude_of(p) is Some)
    &&& f.altitude_ft matches Some(a) ==> a == altitude_of(p)->0
    &&& (f.velocity is Some <==> extended(m) && code == 19 && velocity_of(p) is Some)
    &&& f.velocity matches Some(v) ==> (v.east_kts as int, v.north_kts as int) == velocity_of(p)->0
    &&& (f.speed_kts is Some <==> f.velocity is Some)
    &&& f.velocity matches Some(v) ==> nearest_root(f.speed_kts->0 as int, v.squared())
}

/// Reads a message.
pub fn decode_message(m: &[u8]) -> (r: Option<AdsbFrame>)
    ensures
        r is Some <==> is_message(m@),
        r matches Some(f) ==> frame_of(f, m@),
{
    let n: usize = m.len();
    if n != 14 && n != 7 {
        return None;
    }
    let df: u8 = m[0] / 8;
    if n == 14 && !(df == 16 || df == 17 || df == 18 || df == 19 || df == 20 || df == 21 || df == 24) {
        return None;
    }
    if n == 7 && !(df == 0 || df == 4 || df == 5 || df == 11) {
        return None;
    }
    let head: &[u8] = vstd::slice::slice_subrange(m, 0, n - 3);
    assert(head@ =~= m@.take(n - 3));
    let rem: u32 = crc24(head);
    let par: u32 = m[n - 3] as u32 * 0x1_0000 + m[n - 2] as u32 * 0x100 + m[n - 1] as u32;
    if rem != par {
        return None;
    }
    let payload: &[u8] = vstd::slice::slice_subrange(m, 4, n - 3);
    let code: u8 = m[4] / 8;
    let mut callsign: Option<String> = None;
    let mut altitude_ft: Option<i32> = None;
    let mut speed_kts: Option<u16> = None;
    let mut velocity: Option<GroundVelocity> = None;
    if df == 17 || df == 18 {
        if 1 <= code && code <= 4 {
            callsign = decode_callsign(payload);
        } else if (9 <= code && code <= 18) || (20 <= code && code <= 22) {
            altitude_ft = decode_altitude(payload);
        } else if code == 19 {
            velocity = decode_velocity(payload);
            match velocity {
                Some(v) => {
                    speed_kts = Some(v.speed_kts());
                },
                None => {},
            }
        }
    }
    let icao: Vec<char> = hex_chars(vstd::slice::slice_subrange(m, 1, 4));
    let payload_hex: Vec<char> = hex_chars(payload);
    Some(
        AdsbFrame {
            df,
            icao: string_of(icao.as_slice()),
            msg_type: code,
            payload_hex: string_of(payload_hex.as_slice()),
            callsign,
            altitude_ft,
            speed_kts,
            velocity,
        },
    )
}

// ------------------------------------------------------------------ places
/// The codes of a call sign are the eight groups of six bits behind the first byte. The
/// codes from 1 to 26 are the letters, those from 48 to 57 the digits, in order; the
/// others are left out.
pub proof fn law_call_signs_read_back(p: Seq<u8>, codes: Seq<int>)
    requires
        p.len() >= 7,
        codes.len() == 8,
        forall|k: int| 0 <= k < 8 ==> 0 <= #[trigger] codes[k] < 64,
        p[1] == 4 * codes[0] + codes[1] / 16,
        p[2] == 16 * (codes[1] % 16) + codes[2] / 4,
        p[3] == 64 * (codes[2] % 4) + codes[3],
        p[4] == 4 * codes[4] + codes[5] / 16,
        p[5] == 16 * (codes[5] % 16) + codes[6] / 4,
        p[6] == 64 * (codes[6] % 4) + codes[7],
    ensures
        ({
            let shown = codes.filter(|c: int| 1 <= c <= 26 || 48 <= c <= 57);
            &&& callsign_of(p) is Some <==> shown.len() > 0
            &&& callsign_of(p) matches Some(t) ==> {
                &&& t.len() == shown.len()
                &&& forall|i: int| 0 <= i < t.len() ==> #[trigger] t[i] as int == (if shown[i] <= 26 {
                    64 + shown[i]
                } else {
                    shown[i]
                })
            }
        }),
{
    let b = p.subrange(1, 7);
    assert forall|k: int| 0 <= k < 8 implies sextet(b, k) == #[trigger] codes[k] by {
        assert(0 <= codes[0] < 64 && 0 <= codes[1] < 64 && 0 <= codes[2] < 64 && 0 <= codes[3] < 64);
        assert(0 <= codes[4] < 64 && 0 <= codes[5] < 64 && 0 <= codes[6] < 64 && 0 <= codes[7] < 64);
        if k < 4 {
            lemma_four_codes(codes[0], codes[1], codes[2], codes[3]);
        } else {
            lemma_four_codes(codes[4], codes[5], codes[6], codes[7]);
        }
    }
    lemma_shown_codes(b, codes, 8);
    assert(codes.take(8) =~= codes);
}

proof fn lemma_four_codes(c: int, d: int, e: int, f: int)
    requires
        0 <= c < 64,
        0 <= d < 64,
        0 <= e < 64,
        0 <= f < 64,
    ensures
        ({
            let w = (4 * c + d / 16) * 0x1_0000 + (16 * (d % 16) + e / 4) * 0x100 + (64 * (e % 4) + f);
            (w / 262144) % 64 == c && (w / 4096) % 64 == d && (w / 64) % 64 == e && w % 64 == f
        }),
{
    let w = (4 * c + d / 16) * 0x1_0000 + (16 * (d % 16) + e / 4) * 0x100 + (64 * (e % 4) + f);
    lemma_fundamental_div_mod(d, 16);
    lemma_fundamental_div_mod(e, 4);
    assert(w == 262144 * c + 4096 * d + 64 * e + f);
    lemma_fundamental_div_mod_converse(w, 262144, c, 4096 * d + 64 * e + f);
    lemma_fundamental_div_mod_converse(w, 4096, 64 * c + d, 64 * e + f);
    lemma_fundamental_div_mod_converse(w, 64, 4096 * c + 64 * d + e, f);
    lemma_fundamental_div_mod_converse(c, 64, 0, c);
    lemma_fundamental_div_mod_converse(64 * c + d, 64, c, d);
    lemma_fundamental_div_mod_converse(4096 * c + 64 * d + e, 64, 64 * c + d, e);
}

proof fn lemma_shown_codes(b: Seq<u8>, codes: Seq<int>, n: int)
    requires
        0 <= n <= codes.len() == 8,
        forall|k: int| 0 <= k < 8 ==> sextet(b, k) == #[trigger] codes[k],
    ensures
        ({
            let shown = codes.take(n).filter(|c: int| 1 <= c <= 26 || 48 <= c <= 57);
            &&& call_letters(b, n).len() == shown.len()
            &&& forall|i: int| 0 <= i < shown.len() ==> #[trigger] call_letters(b, n)[i] as int == (if shown[i] <= 26 {
                64 + shown[i]
            } else {
                shown[i]
            })
        }),
    decreases n,
{
    reveal(Seq::filter);
    if n > 0 {
        lemma_shown_codes(b, codes, n - 1);
        assert(codes.take(n).drop_last() =~= codes.take(n - 1));
        assert(codes.take(n).last() == codes[n - 1]);
    }
}

/// The altitude is counted in steps of 25 feet from 1000 feet below zero; its eleven
/// bits stand around the bit that says so, seven before and four behind.
pub proof fn law_altitudes_read_back(p: Seq<u8>, high: int, q: int, low: int, rest: int)
    requires
        p.len() >= 3,
        0 <= high < 128,
        0 <= q < 2,
        0 <= low < 16,
        0 <= rest < 16,
        p[1] == 2 * high + q,
        p[2] == 16 * low + rest,
    ensures
        altitude_of(p) is Some <==> q == 1,
        altitude_of(p) matches Some(a) ==> a == 25 * (16 * high + low) - 1000,
{
}

/// The direction of each component of a ground speed is that of its sign bit, east and
/// north being positive, and its field is one more than the speed in knots. There is
/// a speed if both are known, in the two subtypes that give one over ground.
pub proof fn law_velocities_read_back(
    p: Seq<u8>,
    subtype: int,
    west: int,
    ew: int,
    south: int,
    ns: int,
    r0: int,
    r1: int,
    r4: int,
)
    requires
        p.len() >= 7,
        0 <= subtype < 8,
        0 <= west < 2,
        0 <= ew < 1024,
        0 <= south < 2,
        0 <= ns < 1024,
        0 <= r0 < 32,
        0 <= r1 < 32,
        0 <= r4 < 32,
        p[0] == 8 * r0 + subtype,
        p[1] == 8 * r1 + 4 * west + ew / 256,
        p[2] == ew % 256,
        p[3] == 128 * south + ns / 8,
        p[4] == 32 * (ns % 8) + r4,
    ensures
        velocity_of(p) is Some <==> (subtype == 1 || subtype == 2) && ew >= 1 && ns >= 1,
        velocity_of(p) matches Some(v) ==> {
            &&& west == 0 ==> v.0 == ew - 1 && v.0 >= 0
            &&& west == 1 ==> v.0 == -(ew - 1) && v.0 <= 0
            &&& south == 0 ==> v.1 == ns - 1 && v.1 >= 0
            &&& south == 1 ==> v.1 == -(ns - 1) && v.1 <= 0
        },
{
}

/// Turning over one of the two sign bits of a ground speed turns that component round
/// and leaves the other alone.
pub proof fn law_sign_bits_turn_components(p: Seq<u8>, q: Seq<u8>)
    requires
        p.len() >= 7,
        p.len() == q.len(),
        velocity_of(p) is Some,
    ensures
        ({
            let (east, north) = velocity_of(p)->0;
            &&& q == p.update(1, p[1] ^ 4) ==> velocity_of(q) == Some((-east, north))
            &&& q == p.update(3, p[3] ^ 128) ==> velocity_of(q) == Some((east, -north))
        }),
{
    lemma_turned_bits(p[1], p[3]);
}

proof fn lemma_turned_bits(a: u8, b: u8)
    by (bit_vector)
    ensures
        (a ^ 4) % 4 == a % 4,
        ((a ^ 4) / 4) % 2 == 1 - (a / 4) % 2,
        (b ^ 128) % 128 == b % 128,
        (b ^ 128) / 128 == 1 - b / 128,
{
}

/// A speed in whole knots is at most half a knot off the length of the velocity.
pub proof fn law_speeds_are_rounded(s: int, n: int)
    requires
        nearest_root(s, n),
        0 <= n,
    ensures
        0 <= s,
        s > 0 ==> (2 * s - 1) * (2 * s - 1) <= 4 * n,
        4 * n < (2 * s + 1) * (2 * s + 1),
{
    assert((2 * s - 1) * (2 * s - 1) == 4 * (s * s) - 4 * s + 1) by (nonlinear_arith);
    assert((2 * s + 1) * (2 * s + 1) == 4 * (s * s) + 4 * s + 1) by (nonlinear_arith);
}

/// A run of bytes is a message exactly if it checks to zero as a whole and its length is
/// that of its format, which is in the first five bits: 14 bytes for the formats from
/// 16 to 21 and 24, 7 bytes for the formats 0, 4, 5 and 11.
pub proof fn law_messages_check_to_zero(m: Seq<u8>, df: int, rest: int)
    requires
        m.len() >= 3,
        0 <= df < 32,
        0 <= rest < 8,
        m[0] == 8 * df + rest,
    ensures
        is_message(m) <==> crc24_of(m) == 0 && (m.len() == 14 && (16 <= df <= 21 || df == 24) || m.len() == 7 && (df == 0
            || df == 4 || df == 5 || df == 11)),
{
    let n = m.len() as int;
    let t = m.skip(n - 3);
    assert(m =~= m.take(n - 3) + t);
    law_only_its_own_crc_checks(m.take(n - 3), t);
}

/// What a long message says: its format is in the first five bits, the address of the
/// aircraft in the three bytes behind the first, the type of an extended squitter in the
/// first five bits behind them. A squitter of the types 1 to 4 gives a call sign, of the
/// types 9 to 18 and 20 to 22 an altitude, of the type 19 a velocity.
pub proof fn law_what_a_long_message_says(f: AdsbFrame, df: int, ca: int, address: Seq<u8>, p: Seq<u8>, parity: Seq<u8>, first: u8)
    requires
        address.len() == 3,
        p.len() == 7,
        parity.len() == 3,
        0 <= df < 32,
        0 <= ca < 8,
        first == 8 * df + ca,
        frame_of(f, seq![first] + address + p + parity),
    ensures
        f.df == df,
        f.icao@ == hex_text(address),
        f.payload_hex@ == hex_text(p),
        f.msg_type == p[0] as int / 8,
        ({
            let squitter = df == 17 || df == 18;
            let code = p[0] as int / 8;
            &&& opt_text(f.callsign) == (if squitter && 1 <= code <= 4 { callsign_of(p) } else { None })
            &&& f.altitude_ft is Some <==> squitter && (9 <= code <= 18 || 20 <= code <= 22) && altitude_of(p) is Some
            &&& f.altitude_ft is Some ==> f.altitude_ft->0 == altitude_of(p)->0
            &&& f.velocity is Some <==> squitter && code == 19 && velocity_of(p) is Some
            &&& f.velocity matches Some(v) ==> (v.east_kts as int, v.north_kts as int) == velocity_of(p)->0
            &&& f.speed_kts is Some <==> f.velocity is Some
        }),
{
    let m = seq![first] + address + p + parity;
    assert(m.subrange(1, 4) =~= address);
    assert(m.subrange(4, 11) =~= p);
    assert(m[4] == p[0]);
}

/// A signed number in decimal.
pub open spec fn signed_text(n: int) -> Seq<char> {
    if n < 0 {
        seq!['-'] + decimal_text((-n) as nat)
    } else {
        decimal_text(n as nat)
    }
}

/// One line about a frame. The heading is that of its velocity, in whole
/// degrees.
pub open spec fn detail_of(f: AdsbFrame, heading: Option<u16>) -> Seq<char> {
    let head = "DF"@ + decimal_text(f.df as nat);
    match (f.callsign, f.altitude_ft, f.speed_kts, heading) {
        (Some(cs), _, _, _) => head + " Aircraft ID / Callsign: "@ + cs@,
        (None, Some(alt), _, _) => head + " Airborne Position (Alt: "@ + signed_text(alt as int) + " ft)"@,
        (None, None, Some(s), Some(h)) => head + " Velocity: "@ + decimal_text(s as nat) + " kts @ "@ + decimal_text(
            h as nat,
        ) + "°"@,
        _ => head + " Mode-S Squitter [CRC-OK]"@,
    }
}

impl AdsbFrame {
    /// One line about the frame.
    pub fn detail(&self, heading_deg: Option<u16>) -> (s: String)
        ensures
            s@ == detail_of(*self, heading_deg),
    {
        let mut v: Vec<char> = Vec::new();
        append_text(&mut v, "DF");
        append_chars(&mut v, decimal_chars(self.df as u64).as_slice());
        assert(v@ =~= "DF"@ + decimal_text(self.df as nat));
        match (&self.callsign, self.altitude_ft, self.speed_kts, heading_deg) {
            (Some(cs), _, _, _) => {
                append_text(&mut v, " Aircraft ID / Callsign: ");
                append_text(&mut v, cs.as_str());
            },
            (None, Some(alt), _, _) => {
                append_text(&mut v, " Airborne Position (Alt: ");
                let ghost before = v@;
                if alt < 0 {
                    append_text(&mut v, "-");
                    append_chars(&mut v, decimal_chars((-(alt as i64)) as u64).as_slice());
                    proof {
                        reveal_strlit("-");
                    }
                    assert("-"@ =~= seq!['-']);
                    assert(v@ =~= before + signed_text(alt as int));
                } else {
                    append_chars(&mut v, decimal_chars(alt as u64).as_slice());
                }
                append_text(&mut v, " ft)");
            },
            (None, None, Some(s), Some(h)) => {
                append_text(&mut v, " Velocity: ");
                append_chars(&mut v, decimal_chars(s as u64).as_slice());
                append_text(&mut v, " kts @ ");
                append_chars(&mut v, decimal_chars(h as u64).as_slice());
                append_text(&mut v, "°");
            },
            _ => {
                append_text(&mut v, " Mode-S Squitter [CRC-OK]");
            },
        }
        string_of(v.as_slice())
    }
}

// ------------------------------------------------------------------- scan
/// Hard decisions on the bits of a message that starts at sample `start`:
/// `marks` says of each sample whether the half bit from it on outweighs the
/// next one.
pub open spec fn hard_bits(marks: Seq<bool>, start: int, nbits: int, spb: int) -> Seq<u8> {
    Seq::new(nbits as nat, |b: int| if marks[start + b * spb] { 1u8 } else { 0u8 })
}

/// Bits packed into bytes, most significant first.
pub open spec fn packed(bits: Seq<u8>) -> Seq<u8> {
    Seq::new(bits.len() / 8, |k: int| unsigned_at(bits, 8 * k, 8) as u8)
}

/// Bytes of a message of `nbits` bits after a preamble at sample `i`.
pub open spec fn message_at(marks: Seq<bool>, i: int, nbits: int, spb: int) -> Seq<u8> {
    packed(hard_bits(marks, i + 8 * spb, nbits, spb))
}

/// Whether the recording holds a whole message after a preamble at sample `i`.
pub open spec fn room(marks: Seq<bool>, i: int, nbits: int, spb: int) -> bool {
    i + 8 * spb + nbits * spb + spb <= marks.len()
}

/// Length of the message after a preamble at sample `i`: a long one is looked
/// for first.
pub open spec fn length_at(marks: Seq<bool>, i: int, spb: int) -> Option<int> {
    if room(marks, i, 112, spb) && is_message(message_at(marks, i, 112, spb)) {
        Some(112)
    } else if room(marks, i, 56, spb) && is_message(message_at(marks, i, 56, spb)) {
        Some(56)
    } else {
        None
    }
}

/// The messages of a recording from sample `i` on. `peaks` says where a preamble
/// stands; after a message the scan goes on behind it.
pub open spec fn messages_from(peaks: Seq<bool>, marks: Seq<bool>, spb: int, i: int) -> Seq<Seq<u8>>
    decreases marks.len() - i,
    when spb > 0
{
    if i < 0 || i >= marks.len() - 240 * spb {
        Seq::empty()
    } else if !peaks[i] {
        messages_from(peaks, marks, spb, i + 1)
    } else {
        match length_at(marks, i, spb) {
            Some(nbits) => seq![message_at(marks, i, nbits, spb)] + (if nbits == 112 {
                messages_from(peaks, marks, spb, i + 120 * spb + 1)
            } else {
                messages_from(peaks, marks, spb, i + 64 * spb + 1)
            }),
            None => messages_from(peaks, marks, spb, i + 1),
        }
    }
}

/// Whether frames hold what messages say.
pub open spec fn frames_of(frames: Seq<AdsbFrame>, ms: Seq<Seq<u8>>) -> bool {
    frames.len() == ms.len() && forall|k: int| 0 <= k < ms.len() ==> frame_of(#[trigger] frames[k], ms[k])
}

fn read_bits(marks: &[bool], start: usize, nbits: usize, spb: usize) -> (bits: Vec<u8>)
    requires
        1 <= spb,
        start + nbits * spb <= marks@.len(),
    ensures
        bits@ == hard_bits(marks@, start as int, nbits as int, spb as int),
{
    let ghost all = hard_bits(marks@, start as int, nbits as int, spb as int);
    let len: usize = marks.len();
    let mut bits: Vec<u8> = Vec::new();
    let mut b: usize = 0;
    let mut at: usize = start;
    while b < nbits
        invariant
            1 <= spb,
            b <= nbits,
            len == marks@.len(),
            start + nbits * spb <= len,
            at == start + b * spb,
            all == hard_bits(marks@, start as int, nbits as int, spb as int),
            bits@ == all.take(b as int),
        decreases nbits - b,
    {
        assert((b + 1) * spb == b * spb + spb && (b + 1) * spb <= nbits * spb) by (nonlinear_arith)
            requires
                b < nbits,
                1 <= spb,
        ;
        bits.push(if marks[at] { 1 } else { 0 });
        assert(bits@ =~= all.take(b + 1));
        b += 1;
        at += spb;
    }
    assert(all.take(nbits as int) =~= all);
    bits
}

fn pack(bits: &[u8]) -> (out: Vec<u8>)
    ensures
        out@ == packed(bits@),
{
    let n: usize = bits.len();
    let mut out: Vec<u8> = Vec::new();
    let mut k: usize = 0;
    while k < n / 8
        invariant
            n == bits@.len(),
            k <= n / 8,
            out@ == packed(bits@).take(k as int),
        decreases n / 8 - k,
    {
        let v: u64 = ubits(bits, 8 * k, 8);
        proof {
            lemma2_to64();
        }
        out.push(v as u8);
        k += 1;
        assert(out@ =~= packed(bits@).take(k as int));
    }
    assert(packed(bits@).take(n as int / 8) =~= packed(bits@));
    out
}

fn read_message(marks: &[bool], i: usize, nbits: usize, spb: usize) -> (r: Option<AdsbFrame>)
    requires
        1 <= spb,
        nbits == 112 || nbits == 56,
        i + 240 * spb < marks@.len(),
    ensures
        r is Some <==> room(marks@, i as int, nbits as int, spb as int) && is_message(
            message_at(marks@, i as int, nbits as int, spb as int),
        ),
        r matches Some(f) ==> frame_of(f, message_at(marks@, i as int, nbits as int, spb as int)),
{
    let len: usize = marks.len();
    assert(i + 240 * spb < len);
    let bits: Vec<u8> = read_bits(marks, i + 8 * spb, nbits, spb);
    let bytes: Vec<u8> = pack(bits.as_slice());
    decode_message(bytes.as_slice())
}

/// Messages of a recording, in order. There are `spb` samples per bit.
pub fn scan(peaks: &[bool], marks: &[bool], spb: usize) -> (frames: Vec<AdsbFrame>)
    requires
        1 <= spb,
        240 * spb <= marks@.len(),
        marks@.len() <= peaks@.len() + 240 * spb,
    ensures
        frames_of(frames@, messages_from(peaks@, marks@, spb as int, 0)),
{
    let n: usize = marks.len();
    let end: usize = n - 240 * spb;
    let mut frames: Vec<AdsbFrame> = Vec::new();
    let ghost mut done: Seq<Seq<u8>> = Seq::empty();
    let ghost all = messages_from(peaks@, marks@, spb as int, 0);
    assert(done + all =~= all);
    let mut i: usize = 0;
    while i < end
        invariant
            1 <= spb,
            n == marks@.len(),
            end + 240 * spb == n,
            end <= peaks@.len(),
            i <= end + 240 * spb,
            frames_of(frames@, done),
            done + messages_from(peaks@, marks@, spb as int, i as int) == all,
        decreases n + 240 * spb - i,
    {
        if !peaks[i] {
            i += 1;
            continue;
        }
        let ghost before = done;
        match read_message(marks, i, 112, spb) {
            Some(f) => {
                let ghost m = message_at(marks@, i as int, 112, spb as int);
                frames.push(f);
                proof {
                    done = before.push(m);
                    assert(done + messages_from(peaks@, marks@, spb as int, i + 120 * spb + 1) =~= before + (seq![m]
                        + messages_from(peaks@, marks@, spb as int, i + 120 * spb + 1)));
                }
                i += 120 * spb + 1;
            },
            None => match read_message(marks, i, 56, spb) {
                Some(f) => {
                    let ghost m = message_at(marks@, i as int, 56, spb as int);
                    frames.push(f);
                    proof {
                        done = before.push(m);
                        assert(done + messages_from(peaks@, marks@, spb as int, i + 64 * spb + 1) =~= before + (seq![m]
                            + messages_from(peaks@, marks@, spb as int, i + 64 * spb + 1)));
                    }
                    i += 64 * spb + 1;
                },
                None => {
                    i += 1;
                },
            },
        }
    }
    assert(done + messages_from(peaks@, marks@, spb as int, i as int) =~= done);
    frames
}

} // verus!
