//! Binary fields: sequences of bits, one per byte, most significant first.
use vstd::prelude::*;
use vstd::arithmetic::power2::{lemma2_to64, lemma_pow2_pos, lemma_pow2_unfold, pow2};

verus! {

/// Value of a bit sequence; only the lowest bit of each element counts.
pub open spec fn bits_value(s: Seq<u8>) -> nat
    decreases s.len(),
{
    if s.len() == 0 {
        0
    } else {
        2 * bits_value(s.drop_last()) + (s.last() % 2) as nat
    }
}

/// Value of a bit sequence in two's complement.
pub open spec fn signed_value(s: Seq<u8>) -> int {
    if s.len() > 0 && s[0] % 2 == 1 {
        bits_value(s) - pow2(s.len())
    } else {
        bits_value(s) as int
    }
}

/// The `n` low bits of a number in two's complement.
pub open spec fn field_bits(value: int, n: nat) -> Seq<u8> {
    Seq::new(n, |i: int| ((value / (pow2((n - 1 - i) as nat) as int)) % 2) as u8)
}

/// A number reduced to `n` bits in two's complement.
pub open spec fn wrapped(value: int, n: nat) -> int {
    let r = value % (pow2(n) as int);
    if n > 0 && r >= pow2((n - 1) as nat) {
        r - pow2(n)
    } else {
        r
    }
}

/// Whether every element is a bit.
pub open spec fn is_bits(s: Seq<u8>) -> bool {
    forall|i: int| 0 <= i < s.len() ==> #[trigger] s[i] <= 1
}

/// Bits from `off` up to `off + n` as an unsigned number.
pub open spec fn unsigned_at(s: Seq<u8>, off: int, n: int) -> nat {
    bits_value(s.subrange(off, off + n))
}

/// Bits from `off` up to `off + n` as a signed number.
pub open spec fn signed_at(s: Seq<u8>, off: int, n: int) -> int {
    signed_value(s.subrange(off, off + n))
}

proof fn lemma_append_bit(x: u64, b: u8)
    by (bit_vector)
    ensures
        b & 1 == b % 2,
        b & 1 <= 1,
        x < 0x8000_0000_0000_0000 ==> (x << 1) | ((b & 1) as u64) == 2 * x + (b & 1),
        x >= 0x8000_0000_0000_0000 ==> (x << 1) | ((b & 1) as u64) == 2 * (x - 0x8000_0000_0000_0000) + (b & 1),
{
}

/// Half of a number, rounded down.
fn half(x: i64) -> (h: i64)
    ensures
        h == x as int / 2,
{
    if x >= 0 {
        (x as u64 / 2) as i64
    } else {
        let m: u64 = (-(x + 1)) as u64;
        -((m / 2) as i64) - 1
    }
}

pub proof fn lemma_value_bound(s: Seq<u8>)
    ensures
        bits_value(s) < pow2(s.len()),
    decreases s.len(),
{
    lemma2_to64();
    if s.len() > 0 {
        lemma_value_bound(s.drop_last());
        lemma_pow2_unfold(s.len());
    }
}

/// The value of one run of bits followed by another is that of the first, moved up
/// by the length of the second, plus that of the second; a single bit is worth
/// itself.
pub proof fn law_value_of_joined_bits(a: Seq<u8>, b: Seq<u8>, bit: u8)
    ensures
        bits_value(a + b) == bits_value(a) * pow2(b.len()) + bits_value(b),
        bit <= 1 ==> bits_value(seq![bit]) == bit,
        bits_value(Seq::<u8>::empty()) == 0,
    decreases b.len(),
{
    lemma2_to64();
    assert(seq![bit].drop_last() == Seq::<u8>::empty());
    assert(bits_value(Seq::<u8>::empty()) == 0);
    if b.len() == 0 {
        assert(a + b == a);
        assert(bits_value(a) * 1 == bits_value(a));
    } else {
        let c = b.drop_last();
        law_value_of_joined_bits(a, c, bit);
        assert((a + b).drop_last() == a + c);
        assert((a + b).last() == b.last());
        lemma_pow2_unfold(b.len());
        let p = pow2(c.len()) as int;
        let v = bits_value(a) as int;
        assert(2 * (v * p) == v * (2 * p)) by (nonlinear_arith);
    }
}

/// A signed field of `n` bits lies between minus two to the `n - 1` and one less
/// than two to the `n - 1`, and leaves the same rest as the unsigned one when divided
/// by two to the `n`; it is negative exactly if its first bit is set.
pub proof fn law_signed_fields_are_twos_complement(s: Seq<u8>)
    requires
        s.len() > 0,
        is_bits(s),
    ensures
        -pow2((s.len() - 1) as nat) <= signed_value(s) < pow2((s.len() - 1) as nat),
        signed_value(s) - bits_value(s) == 0 || signed_value(s) - bits_value(s) == -pow2(s.len()),
        signed_value(s) < 0 <==> s[0] == 1,
{
    lemma_signed_bound(s);
    lemma_value_bound(s);
    lemma_leading_bit(s);
    lemma_value_bound(s.skip(1));
    lemma_pow2_unfold(s.len());
    assert(s[0] <= 1);
    let p = pow2((s.len() - 1) as nat) as int;
    assert(s[0] == 1 ==> (s[0] % 2) * p == p) by (nonlinear_arith);
    assert(s[0] == 0 ==> (s[0] % 2) * p == 0) by (nonlinear_arith);
}

/// What stands from `off` on for `n` places, read as a number of either kind, is the
/// value of just those bits, wherever they stand.
pub proof fn law_fields_are_read_where_they_stand(before: Seq<u8>, s: Seq<u8>, after: Seq<u8>)
    ensures
        unsigned_at(before + s + after, before.len() as int, s.len() as int) == bits_value(s),
        signed_at(before + s + after, before.len() as int, s.len() as int) == signed_value(s),
{
    assert((before + s + after).subrange(before.len() as int, (before.len() + s.len()) as int) =~= s);
}

/// The first bit has the weight of all the others together, plus one.
pub proof fn lemma_leading_bit(s: Seq<u8>)
    requires
        s.len() > 0,
    ensures
        bits_value(s) == bits_value(s.skip(1)) + (s[0] % 2) * pow2((s.len() - 1) as nat),
    decreases s.len(),
{
    let b = (s[0] % 2) as int;
    if s.len() == 1 {
        lemma2_to64();
        assert(s.drop_last() == Seq::<u8>::empty());
        assert(s.skip(1) == Seq::<u8>::empty());
        assert(b * 1 == b);
        assert(s.last() == s[0]);
        assert(bits_value(s.drop_last()) == 0);
        assert(bits_value(s.skip(1)) == 0);
        assert(bits_value(s) == 2 * bits_value(s.drop_last()) + b);
    } else {
        lemma_leading_bit(s.drop_last());
        assert(s.drop_last().skip(1) == s.skip(1).drop_last());
        lemma_pow2_unfold((s.len() - 1) as nat);
        let p = pow2((s.len() - 2) as nat) as int;
        assert(2 * (b * p) == b * (2 * p)) by (nonlinear_arith);
        assert(s.drop_last().last() == s.drop_last()[s.len() - 2]);
        assert(s.skip(1).last() == s.last());
    }
}

/// Dividing twice is dividing by the product.
proof fn lemma_two_divisions(x: int, c: int, d: int)
    requires
        c > 0,
        d > 0,
    ensures
        c * d > 0,
        (x / c) / d == x / (c * d),
{
    let q = x / c;
    let r = x % c;
    let q2 = q / d;
    let r2 = q % d;
    vstd::arithmetic::div_mod::lemma_fundamental_div_mod(x, c);
    vstd::arithmetic::div_mod::lemma_fundamental_div_mod(q, d);
    assert(c * d > 0) by (nonlinear_arith)
        requires
            c > 0,
            d > 0,
    ;
    assert(x == (c * d) * q2 + (c * r2 + r)) by (nonlinear_arith)
        requires
            x == c * q + r,
            q == d * q2 + r2,
    ;
    assert(0 <= c * r2 + r < c * d) by (nonlinear_arith)
        requires
            c > 0,
            0 <= r < c,
            0 <= r2 < d,
    ;
    vstd::arithmetic::div_mod::lemma_fundamental_div_mod_converse(x, c * d, q2, c * r2 + r);
}

proof fn lemma_shifted_quotient(value: int, k: nat)
    ensures
        (value / 2) / (pow2(k) as int) == value / (pow2(k + 1) as int),
{
    lemma_pow2_pos(k);
    lemma_pow2_unfold(k + 1);
    lemma_two_divisions(value, 2, pow2(k) as int);
}

proof fn lemma_field_drop_last(value: int, n: nat)
    requires
        n > 0,
    ensures
        field_bits(value, n).drop_last() == field_bits(value / 2, (n - 1) as nat),
        field_bits(value, n).last() == value % 2,
{
    lemma2_to64();
    assert forall|i: int| 0 <= i < n - 1 implies field_bits(value, n)[i] == field_bits(
        value / 2,
        (n - 1) as nat,
    )[i] by {
        lemma_shifted_quotient(value, (n - 2 - i) as nat);
    }
    assert(field_bits(value, n).drop_last() =~= field_bits(value / 2, (n - 1) as nat));
    assert(value / (pow2(0) as int) == value);
    assert(field_bits(value, n)[n - 1] == ((value / (pow2(0) as int)) % 2) as u8);
}

/// The bits of a field read back as the number modulo two to its width.
pub proof fn law_field_reads_back_unsigned(value: int, n: nat)
    ensures
        bits_value(field_bits(value, n)) == value % (pow2(n) as int),
        is_bits(field_bits(value, n)),
    decreases n,
{
    lemma2_to64();
    if n > 0 {
        lemma_field_drop_last(value, n);
        law_field_reads_back_unsigned(value / 2, (n - 1) as nat);
        lemma_pow2_unfold(n);
        lemma_pow2_pos((n - 1) as nat);
        let p = pow2((n - 1) as nat) as int;
        lemma_mod_double(value, p);
    }
}

/// The bits of the value of a run of bits are those bits.
pub proof fn law_bits_of_a_value(s: Seq<u8>)
    requires
        is_bits(s),
    ensures
        field_bits(bits_value(s) as int, s.len()) == s,
    decreases s.len(),
{
    let f = field_bits(bits_value(s) as int, s.len());
    if s.len() > 0 {
        assert(is_bits(s.drop_last()));
        law_bits_of_a_value(s.drop_last());
        lemma_field_drop_last(bits_value(s) as int, s.len());
        assert(s.last() <= 1);
        assert(bits_value(s) as int / 2 == bits_value(s.drop_last()));
        assert(f =~= f.drop_last().push(f.last()));
        assert(s =~= s.drop_last().push(s.last()));
    }
    assert(f =~= s);
}

proof fn lemma_mod_double(value: int, p: int)
    requires
        p > 0,
    ensures
        value % (2 * p) == 2 * ((value / 2) % p) + value % 2,
{
    vstd::arithmetic::div_mod::lemma_fundamental_div_mod(value / 2, p);
    let q = (value / 2) / p;
    let r = (value / 2) % p;
    assert(value == (2 * p) * q + (2 * r + value % 2)) by (nonlinear_arith)
        requires
            value / 2 == p * q + r,
            value == 2 * (value / 2) + value % 2,
    ;
    vstd::arithmetic::div_mod::lemma_fundamental_div_mod_converse(value, 2 * p, q, 2 * r + value % 2);
}

/// The bits of a field read back as the number wrapped to its width.
pub proof fn law_field_reads_back_signed(value: int, n: nat)
    requires
        n > 0,
    ensures
        signed_value(field_bits(value, n)) == wrapped(value, n),
{
    let s = field_bits(value, n);
    law_field_reads_back_unsigned(value, n);
    lemma_leading_bit(s);
    lemma_value_bound(s.skip(1));
    lemma_pow2_unfold(n);
    let p = pow2((n - 1) as nat) as int;
    if s[0] % 2 == 1 {
        assert((s[0] % 2) * p == p) by (nonlinear_arith)
            requires
                s[0] % 2 == 1,
        ;
    } else {
        assert((s[0] % 2) * p == 0) by (nonlinear_arith)
            requires
                s[0] % 2 == 0,
        ;
    }
}

/// A number that fits its field reads back as itself.
pub proof fn law_fitting_field_reads_back(value: int, n: nat)
    requires
        n > 0,
    ensures
        0 <= value < pow2(n) ==> bits_value(field_bits(value, n)) == value,
        -pow2((n - 1) as nat) <= value < pow2((n - 1) as nat) ==> signed_value(field_bits(value, n)) == value,
{
    lemma_pow2_unfold(n);
    lemma_pow2_pos((n - 1) as nat);
    law_field_reads_back_unsigned(value, n);
    law_field_reads_back_signed(value, n);
    let m = pow2(n) as int;
    if 0 <= value < m {
        vstd::arithmetic::div_mod::lemma_small_mod(value as nat, m as nat);
    }
    if -(m / 2) <= value < 0 {
        vstd::arithmetic::div_mod::lemma_fundamental_div_mod_converse(value, m, -1, value + m);
    }
}

pub proof fn lemma_signed_bound(s: Seq<u8>)
    requires
        s.len() > 0,
    ensures
        signed_value(s) == bits_value(s) - (if bits_value(s) >= pow2((s.len() - 1) as nat) { pow2(s.len()) } else { 0 }),
        -pow2((s.len() - 1) as nat) <= signed_value(s) < pow2((s.len() - 1) as nat),
{
    lemma_leading_bit(s);
    lemma_value_bound(s.skip(1));
    lemma_pow2_unfold(s.len());
    let p = pow2((s.len() - 1) as nat) as int;
    if s[0] % 2 == 1 {
        assert((s[0] % 2) * p == p) by (nonlinear_arith)
            requires
                s[0] % 2 == 1,
        ;
    } else {
        assert((s[0] % 2) * p == 0) by (nonlinear_arith)
            requires
                s[0] % 2 == 0,
        ;
    }
}

/// Unsigned value of the `n` bits from `off` on; only the last 64 count.
pub fn ubits(bits: &[u8], off: usize, n: usize) -> (r: u64)
    requires
        off + n <= bits@.len(),
    ensures
        r == unsigned_at(bits@, off as int, n as int) % 0x1_0000_0000_0000_0000,
        n <= 64 ==> r == unsigned_at(bits@, off as int, n as int),
        n < 64 ==> r < pow2(n as nat),
{
    let len: usize = bits.len();
    let ghost s = bits@.subrange(off as int, off + n);
    let mut v: u64 = 0;
    let mut i: usize = 0;
    while i < n
        invariant
            len == bits@.len(),
            off + n <= len,
            i <= n,
            s == bits@.subrange(off as int, off + n),
            v == bits_value(s.take(i as int)) % 0x1_0000_0000_0000_0000,
        decreases n - i,
    {
        let b: u8 = bits[off + i];
        proof {
            lemma_append_bit(v, b);
            assert(s[i as int] == b);
            assert(s.take(i + 1).drop_last() == s.take(i as int));
        }
        v = (v << 1) | ((b & 1) as u64);
        i += 1;
    }
    proof {
        assert(s.take(n as int) == s);
        lemma_value_bound(s);
        lemma2_to64();
        vstd::arithmetic::power2::lemma2_to64_rest();
        if n < 64 {
            vstd::arithmetic::power2::lemma_pow2_strictly_increases(n as nat, 64);
        }
    }
    v
}

/// Signed value of the `n` bits from `off` on, in two's complement.
pub fn sbits(bits: &[u8], off: usize, n: usize) -> (r: i64)
    requires
        off + n <= bits@.len(),
        1 <= n <= 64,
        n >= 63 ==> bits@[off as int] % 2 == 0,
    ensures
        r == signed_at(bits@, off as int, n as int),
        n < 64 ==> -pow2((n - 1) as nat) <= r < pow2((n - 1) as nat),
{
    let v: u64 = ubits(bits, off, n);
    let ghost s = bits@.subrange(off as int, off + n);
    proof {
        lemma_signed_bound(s);
        lemma_value_bound(s);
        lemma2_to64();
        vstd::arithmetic::power2::lemma2_to64_rest();
        if n < 63 {
            vstd::arithmetic::power2::lemma_pow2_strictly_increases(n as nat, 63);
        }
        lemma_pow2_unfold(n as nat);
        vstd::bits::lemma_u64_pow2_no_overflow((n - 1) as nat);
        vstd::bits::lemma_u64_shl_is_mul(1, (n - 1) as u64);
    }
    if v >= 1u64 << ((n - 1) as u64) {
        proof {
            vstd::bits::lemma_u64_shl_is_mul(1, n as u64);
        }
        let top: u64 = 1u64 << (n as u64);
        v as i64 - top as i64
    } else {
        v as i64
    }
}

/// Appends the `n` low bits of a number.
pub fn push_bits(bits: &mut Vec<u8>, n: usize, value: i64)
    ensures
        final(bits)@ == old(bits)@ + field_bits(value as int, n as nat),
{
    let start: usize = bits.len();
    let ghost before = bits@;
    let mut i: usize = 0;
    while i < n
        invariant
            i <= n,
            bits@.len() == start + i,
            bits@.take(start as int) == before,
            before.len() == start,
        decreases n - i,
    {
        bits.push(0);
        assert(bits@.take(start as int) =~= before);
        i += 1;
    }
    put_bits(bits, start, n, value);
    assert(bits@ =~= before + field_bits(value as int, n as nat));
}

/// Writes the `n` low bits of a number at `off`.
pub fn put_bits(bits: &mut Vec<u8>, off: usize, n: usize, value: i64)
    requires
        off + n <= old(bits)@.len(),
    ensures
        final(bits)@ == old(bits)@.take(off as int) + field_bits(value as int, n as nat) + old(bits)@.skip(off + n),
{
    let ghost before = bits@;
    let ghost f = field_bits(value as int, n as nat);
    let len: usize = bits.len();
    let mut x: i64 = value;
    let mut i: usize = n;
    proof {
        lemma2_to64();
        assert(value as int / 1 == value);
    }
    while i > 0
        invariant
            i <= n,
            off + n <= len,
            len == bits@.len(),
            bits@.len() == before.len(),
            f == field_bits(value as int, n as nat),
            x == value as int / (pow2((n - i) as nat) as int),
            forall|k: int| 0 <= k < bits@.len() && !(off + i <= k < off + n) ==> #[trigger] bits@[k] == before[k],
            forall|k: int| off + i <= k < off + n ==> #[trigger] bits@[k] == f[k - off],
        decreases i,
    {
        proof {
            lemma_pow2_pos((n - i) as nat);
            lemma_pow2_unfold((n - i + 1) as nat);
            lemma_two_divisions(value as int, pow2((n - i) as nat) as int, 2);
            assert(f[i - 1] == ((value as int / (pow2((n - i) as nat) as int)) % 2) as u8);
        }
        let h: i64 = half(x);
        let b: u8 = (x - 2 * h) as u8;
        bits.set(off + (i - 1), b);
        x = h;
        i -= 1;
    }
    assert(bits@ =~= before.take(off as int) + f + before.skip(off + n));
}

} // verus!
