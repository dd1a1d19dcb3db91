//! Cyclic redundancy check and convolutional code shared by the SBAS and
//! Galileo messages.
use vstd::prelude::*;
use vstd::arithmetic::power2::{lemma2_to64, lemma_pow2_adds, lemma_pow2_unfold, pow2};
use crate::bits::{bits_value, is_bits, lemma_leading_bit, lemma_value_bound};
use crate::inmarsat::{conv_coded, conv_state, parity, parity_of, G1, G2};

verus! {

/// CRC-24Q generator polynomial, without its leading term.
pub const CRC24Q_POLY: u32 = 0x86_4cfb;

/// Check register after one more bit.
pub open spec fn crc24q_step(reg: u32, b: u8) -> u32 {
    if ((reg >> 23) ^ ((b & 1) as u32)) & 1 == 1 {
        ((reg << 1) & 0xff_ffff) ^ CRC24Q_POLY
    } else {
        (reg << 1) & 0xff_ffff
    }
}

/// Check register after all the bits.
pub open spec fn crc24q_of(bits: Seq<u8>) -> u32
    decreases bits.len(),
{
    if bits.len() == 0 {
        0
    } else {
        crc24q_step(crc24q_of(bits.drop_last()), bits.last())
    }
}

/// The 24 bits of a check value, most significant first.
pub open spec fn crc24q_bits(crc: u32) -> Seq<u8> {
    Seq::new(24, |i: int| ((crc >> ((23 - i) as u32)) & 1) as u8)
}

proof fn lemma_own_bits(c: u32, i: u32)
    by (bit_vector)
    requires
        c <= 0xff_ffff,
        i < 24,
    ensures
        crc24q_step((c << i) & 0xff_ffff, ((c >> ((23 - i) as u32)) & 1) as u8) == (c << ((i + 1) as u32)) & 0xff_ffff,
        (c << 24u32) & 0xff_ffff == 0,
        (c << 0u32) & 0xff_ffff == c,
{
}

proof fn lemma_step(reg: u32, b: u8, other: u32, c: u8)
    by (bit_vector)
    ensures
        crc24q_step(reg, b) <= 0xff_ffff,
        crc24q_step(reg ^ other, b ^ c) == crc24q_step(reg, b) ^ crc24q_step(other, c),
        reg <= 0xff_ffff && b <= 1 && other <= 0xff_ffff && other % 2 == 0 ==> (crc24q_step(reg, b) == other <==> reg == b
            * 0x80_0000 + other / 2),
        crc24q_step(0, 0) == 0,
        0u32 ^ 0u32 == 0,
        reg ^ 0 == reg,
{
}

proof fn lemma_step_bound(reg: u32, b: u8)
    ensures
        crc24q_step(reg, b) <= 0xff_ffff,
{
    lemma_step(reg, b, 0, 0);
}

/// The bits of two messages added place by place.
pub open spec fn added(a: Seq<u8>, b: Seq<u8>) -> Seq<u8> {
    Seq::new(a.len(), |i: int| a[i] ^ b[i])
}

/// The check value of a sum of two messages is the sum of their check values.
pub proof fn law_crc_of_a_sum(a: Seq<u8>, b: Seq<u8>)
    requires
        a.len() == b.len(),
    ensures
        crc24q_of(added(a, b)) == crc24q_of(a) ^ crc24q_of(b),
    decreases a.len(),
{
    if a.len() == 0 {
        lemma_step(0, 0, 0, 0);
    } else {
        law_crc_of_a_sum(a.drop_last(), b.drop_last());
        assert(added(a, b).drop_last() =~= added(a.drop_last(), b.drop_last()));
        lemma_step(crc24q_of(a.drop_last()), a.last(), crc24q_of(b.drop_last()), b.last());
    }
}

/// The check is division by x^24 + x^23 + x^18 + x^17 + x^14 + x^11 + x^10 + x^7 + x^6 + x^5 +
/// x^4 + x^3 + x + 1: adding these 25 bits to a message, at any place, does not change the
/// check value.
pub proof fn law_generator_multiples_do_not_count(bits: Seq<u8>, at: int)
    requires
        0 <= at,
        at + 25 <= bits.len(),
    ensures
        ({
            let g = seq![1u8, 1, 0, 0, 0, 0, 1, 1, 0, 0, 1, 0, 0, 1, 1, 0, 0, 1, 1, 1, 1, 1, 0, 1, 1];
            let pattern = Seq::new(
                bits.len(),
                |i: int|
                    if at <= i < at + 25 {
                        g[i - at]
                    } else {
                        0u8
                    },
            );
            crc24q_of(added(bits, pattern)) == crc24q_of(bits)
        }),
{
    let g = seq![1u8, 1, 0, 0, 0, 0, 1, 1, 0, 0, 1, 0, 0, 1, 1, 0, 0, 1, 1, 1, 1, 1, 0, 1, 1];
    let pattern = Seq::new(
        bits.len(),
        |i: int|
            if at <= i < at + 25 {
                g[i - at]
            } else {
                0u8
            },
    );
    let nought = Seq::new(at as nat, |i: int| 0u8);
    let one = nought.push(1u8);
    lemma_trailing_zeros(Seq::empty(), nought);
    assert(Seq::<u8>::empty() + nought =~= nought);
    lemma_generator();
    assert(one.drop_last() =~= nought);
    assert(crc24q_of(one) == 0x86_4cfb);
    law_appended_crc_checks(one);
    assert(crc24q_bits(0x86_4cfb) =~= g.skip(1));
    let zeros = Seq::new((bits.len() - at - 25) as nat, |i: int| 0u8);
    lemma_trailing_zeros(one + g.skip(1), zeros);
    assert(one + g.skip(1) + zeros =~= pattern);
    law_crc_of_a_sum(bits, pattern);
    lemma_step(crc24q_of(bits), 0, 0, 0);
}

proof fn lemma_trailing_zeros(bits: Seq<u8>, zeros: Seq<u8>)
    requires
        crc24q_of(bits) == 0,
        forall|i: int| 0 <= i < zeros.len() ==> zeros[i] == 0,
    ensures
        crc24q_of(bits + zeros) == 0,
    decreases zeros.len(),
{
    if zeros.len() == 0 {
        assert(bits + zeros =~= bits);
    } else {
        lemma_trailing_zeros(bits, zeros.drop_last());
        assert((bits + zeros).drop_last() =~= bits + zeros.drop_last());
        lemma_step(0, 0, 0, 0);
    }
}

proof fn lemma_generator()
    by (bit_vector)
    ensures
        crc24q_step(0, 1) == 0x86_4cfb,
        (0x86_4cfbu32 >> 23u32) & 1 == 1,
        (0x86_4cfbu32 >> 22u32) & 1 == 0,
        (0x86_4cfbu32 >> 21u32) & 1 == 0,
        (0x86_4cfbu32 >> 20u32) & 1 == 0,
        (0x86_4cfbu32 >> 19u32) & 1 == 0,
        (0x86_4cfbu32 >> 18u32) & 1 == 1,
        (0x86_4cfbu32 >> 17u32) & 1 == 1,
        (0x86_4cfbu32 >> 16u32) & 1 == 0,
        (0x86_4cfbu32 >> 15u32) & 1 == 0,
        (0x86_4cfbu32 >> 14u32) & 1 == 1,
        (0x86_4cfbu32 >> 13u32) & 1 == 0,
        (0x86_4cfbu32 >> 12u32) & 1 == 0,
        (0x86_4cfbu32 >> 11u32) & 1 == 1,
        (0x86_4cfbu32 >> 10u32) & 1 == 1,
        (0x86_4cfbu32 >> 9u32) & 1 == 0,
        (0x86_4cfbu32 >> 8u32) & 1 == 0,
        (0x86_4cfbu32 >> 7u32) & 1 == 1,
        (0x86_4cfbu32 >> 6u32) & 1 == 1,
        (0x86_4cfbu32 >> 5u32) & 1 == 1,
        (0x86_4cfbu32 >> 4u32) & 1 == 1,
        (0x86_4cfbu32 >> 3u32) & 1 == 1,
        (0x86_4cfbu32 >> 2u32) & 1 == 0,
        (0x86_4cfbu32 >> 1u32) & 1 == 1,
        (0x86_4cfbu32 >> 0u32) & 1 == 1,
{
}

/// Twenty-four bits behind a message check to zero together with it exactly if they are its
/// check value, the most significant bit first.
pub proof fn law_only_its_own_crc_checks(bits: Seq<u8>, t: Seq<u8>)
    requires
        t.len() == 24,
        is_bits(t),
    ensures
        crc24q_of(bits + t) == 0 <==> bits_value(t) == crc24q_of(bits),
{
    lemma_checks_from(bits, t, 24);
    lemma2_to64();
    assert(bits + t.take(0) =~= bits);
    assert(t.skip(0) =~= t);
}

proof fn lemma_checks_from(bits: Seq<u8>, t: Seq<u8>, j: nat)
    requires
        t.len() == 24,
        is_bits(t),
        j <= 24,
    ensures
        crc24q_of(bits + t) == 0 <==> crc24q_of(bits + t.take(24 - j)) == bits_value(t.skip(24 - j)) * pow2(
            (24 - j) as nat,
        ),
    decreases j,
{
    if j == 0 {
        assert(t.take(24) =~= t);
        assert(bits_value(t.skip(24)) == 0);
    } else {
        let h = (j - 1) as nat;
        lemma_checks_from(bits, t, h);
        let (long, short) = (bits + t.take(24 - h), bits + t.take(24 - j));
        let b = t[24 - j];
        assert(long.drop_last() =~= short);
        assert(long.last() == b);
        lemma_crc_bound(short);
        let rest = t.skip(24 - h);
        let v = bits_value(rest) as int;
        lemma_value_bound(rest);
        lemma_leading_bit(t.skip(24 - j));
        assert(t.skip(24 - j).skip(1) =~= rest);
        assert(t.skip(24 - j)[0] == b);
        assert(b <= 1);
        lemma_pow2_unfold((24 - h) as nat);
        lemma_pow2_adds(h, (24 - h) as nat);
        lemma_pow2_adds(h, (24 - j) as nat);
        lemma2_to64();
        let (p, q, d) = (pow2((24 - h) as nat) as int, pow2((24 - j) as nat) as int, pow2(h) as int);
        assert(v * p == 2 * (v * q)) by (nonlinear_arith)
            requires
                p == 2 * q,
        ;
        assert(0 <= v * p <= 0xff_ffff) by (nonlinear_arith)
            requires
                0 <= v < d,
                0 < p,
                d * p == 0x100_0000,
        ;
        assert((v + b * d) * q == v * q + b * 0x80_0000) by (nonlinear_arith)
            requires
                d * q == 0x80_0000,
        ;
        let e = (v * p) as u32;
        assert(e == v * p);
        lemma_step(crc24q_of(short), b, e, 0);
        assert(e % 2 == 0 && e / 2 == v * q);
        assert(t.skip(24 - j).len() - 1 == h);
        assert(b % 2 == b);
        assert(bits_value(t.skip(24 - j)) == v + b * d);
        assert(crc24q_of(long) == crc24q_step(crc24q_of(short), b));
        assert(crc24q_of(long) == v * p <==> crc24q_of(short) == (v + b * d) * q);
    }
}

pub proof fn lemma_crc_bound(bits: Seq<u8>)
    ensures
        crc24q_of(bits) <= 0xff_ffff,
{
    if bits.len() > 0 {
        lemma_step_bound(crc24q_of(bits.drop_last()), bits.last());
    }
}

proof fn lemma_append(bits: Seq<u8>, i: int)
    requires
        0 <= i <= 24,
    ensures
        crc24q_of(bits + crc24q_bits(crc24q_of(bits)).take(i)) == (crc24q_of(bits) << (i as u32)) & 0xff_ffff,
    decreases i,
{
    let c = crc24q_of(bits);
    let t = crc24q_bits(c);
    lemma_crc_bound(bits);
    if i == 0 {
        assert(bits + t.take(0) == bits);
        lemma_own_bits(c, 0);
    } else {
        lemma_append(bits, i - 1);
        lemma_own_bits(c, (i - 1) as u32);
        assert((bits + t.take(i)).drop_last() == bits + t.take(i - 1));
        assert((bits + t.take(i)).last() == t[i - 1]);
    }
}

/// A message followed by its own check bits checks to zero.
pub proof fn law_appended_crc_checks(bits: Seq<u8>)
    ensures
        crc24q_of(bits + crc24q_bits(crc24q_of(bits))) == 0,
{
    let c = crc24q_of(bits);
    lemma_append(bits, 24);
    lemma_crc_bound(bits);
    lemma_own_bits(c, 0);
    assert(crc24q_bits(c).take(24) == crc24q_bits(c));
}

/// CRC-24Q of a bit sequence, from a cleared register.
pub fn crc24q(bits: &[u8]) -> (c: u32)
    ensures
        c == crc24q_of(bits@),
        c <= 0xff_ffff,
{
    let mut reg: u32 = 0;
    let mut i: usize = 0;
    while i < bits.len()
        invariant
            i <= bits@.len(),
            reg == crc24q_of(bits@.take(i as int)),
        decreases bits@.len() - i,
    {
        assert(bits@.take(i + 1).drop_last() == bits@.take(i as int));
        let b: u8 = bits[i];
        reg = if ((reg >> 23) ^ ((b & 1) as u32)) & 1 == 1 {
            ((reg << 1) & 0xff_ffff) ^ CRC24Q_POLY
        } else {
            (reg << 1) & 0xff_ffff
        };
        i += 1;
    }
    proof {
        assert(bits@.take(bits@.len() as int) == bits@);
        lemma_crc_bound(bits@);
    }
    reg
}

/// Rate 1/2 convolutional encoder, with the second symbol of each pair inverted
/// on request.
pub fn conv_encode(bits: &[u8], invert_g2: bool, init: u32) -> (out: Vec<u8>)
    requires
        is_bits(bits@),
        init < 64,
    ensures
        out@ == conv_coded(bits@, init, invert_g2),
        is_bits(out@),
{
    let mut s: u32 = init;
    let mut out: Vec<u8> = Vec::new();
    let mut i: usize = 0;
    while i < bits.len()
        invariant
            is_bits(bits@),
            is_bits(out@),
            i <= bits@.len(),
            s == conv_state(bits@, init, i as int),
            out@ == conv_coded(bits@, init, invert_g2).take(2 * i),
        decreases bits@.len() - i,
    {
        let v: u32 = ((bits[i] as u32) << 6) | s;
        let ghost all = conv_coded(bits@, init, invert_g2);
        let second: u8 = parity(v & G2);
        out.push(parity(v & G1));
        out.push(if invert_g2 { 1 - second } else { second });
        s = v >> 1;
        assert(all[2 * i] == parity_of(v & G1));
        assert(all[2 * i + 1] == (if invert_g2 { (1 - parity_of(v & G2)) as u8 } else { parity_of(v & G2) }));
        assert(out@ =~= all.take(2 * (i + 1)));
        i += 1;
    }
    assert(conv_coded(bits@, init, invert_g2).take(2 * bits@.len() as int) =~= conv_coded(bits@, init, invert_g2));
    out
}

} // verus!
