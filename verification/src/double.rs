//! Doubles as bit patterns, and what can be decided of them without rounding.
//!
//! Every finite double is a whole multiple of 2^-1074, so its value is held here
//! as an integer in that unit.
use vstd::arithmetic::div_mod::{
    lemma_basic_div, lemma_div_denominator, lemma_div_is_ordered, lemma_div_is_ordered_by_denominator,
    lemma_div_multiples_vanish, lemma_fundamental_div_mod, lemma_small_mod, lemma_truncate_middle,
};
use vstd::arithmetic::power2::{
    lemma2_to64, lemma2_to64_rest, lemma_pow2_adds, lemma_pow2_pos, lemma_pow2_strictly_increases, lemma_pow2_unfold,
    pow2,
};
use vstd::prelude::*;

verus! {

/// Weight of the sign bit.
pub const SIGN: u64 = 0x8000_0000_0000_0000;

/// Weight of the lowest bit of the exponent.
pub const STEP: u64 = 0x10_0000_0000_0000;

/// The exponent field.
pub open spec fn exponent(b: u64) -> nat {
    ((b % SIGN) / STEP) as nat
}

/// The fraction field.
pub open spec fn fraction(b: u64) -> nat {
    (b % STEP) as nat
}

/// Whether a pattern stands for a number: not for an infinity, nor for no number.
pub open spec fn finite(b: u64) -> bool {
    exponent(b) != 2047
}

/// One, in units of the smallest double.
pub open spec fn one() -> nat {
    pow2(1074)
}

/// Distance from zero, in units of the smallest double.
pub open spec fn magnitude(b: u64) -> nat {
    if exponent(b) == 0 {
        fraction(b)
    } else {
        (STEP + fraction(b)) as nat * pow2((exponent(b) - 1) as nat)
    }
}

/// The number, in units of the smallest double.
pub open spec fn value(b: u64) -> int {
    if b >= SIGN {
        -magnitude(b)
    } else {
        magnitude(b) as int
    }
}

proof fn lemma_fields(b: u64)
    ensures
        b < SIGN ==> b == exponent(b) * STEP + fraction(b),
        b % SIGN == exponent(b) * STEP + fraction(b),
        fraction(b) < STEP,
        exponent(b) <= 2047,
        exponent((b % SIGN) as u64) == exponent(b),
        fraction((b % SIGN) as u64) == fraction(b),
        magnitude((b % SIGN) as u64) == magnitude(b),
{
    lemma_fundamental_div_mod((b % SIGN) as int, STEP as int);
    assert(b % STEP == (b % SIGN) % STEP);
}

proof fn lemma_scale(a: int, b: int, c: int)
    by (nonlinear_arith)
    requires
        a < b,
        c > 0,
    ensures
        a * c < b * c,
{
}

/// Patterns without the sign are in the order of the numbers they stand for.
proof fn lemma_order(x: u64, y: u64)
    requires
        x < y < SIGN,
    ensures
        magnitude(x) < magnitude(y),
{
    lemma_fields(x);
    lemma_fields(y);
    let (ex, ey) = (exponent(x), exponent(y));
    assert(ex <= ey) by (nonlinear_arith)
        requires
            x < y,
            x == ex * STEP + fraction(x),
            y == ey * STEP + fraction(y),
            fraction(x) < STEP,
            fraction(y) < STEP,
    ;
    if ex == ey {
        if ex > 0 {
            lemma_pow2_pos((ex - 1) as nat);
            lemma_scale(STEP + fraction(x), STEP + fraction(y), pow2((ex - 1) as nat) as int);
        }
    } else {
        lemma_pow2_pos((ey - 1) as nat);
        let q = pow2((ey - 1) as nat);
        assert(magnitude(y) >= STEP * q) by (nonlinear_arith)
            requires
                magnitude(y) == (STEP + fraction(y)) * q,
                q > 0,
                fraction(y) >= 0,
        ;
        assert(STEP * q >= STEP) by (nonlinear_arith)
            requires
                q >= 1,
        ;
        if ex > 0 {
            let p = pow2((ex - 1) as nat);
            lemma_pow2_pos((ex - 1) as nat);
            lemma_pow2_adds((ex - 1) as nat, 1);
            lemma2_to64();
            assert(pow2(ex) == 2 * p);
            if ex < ey - 1 {
                lemma_pow2_strictly_increases(ex, (ey - 1) as nat);
            }
            assert(2 * p <= q);
            assert(magnitude(x) < STEP * q) by (nonlinear_arith)
                requires
                    magnitude(x) == (STEP + fraction(x)) * p,
                    fraction(x) < STEP,
                    p > 0,
                    2 * p <= q,
            ;
        }
    }
}

/// Equal patterns without the sign are those of equal magnitude.
proof fn lemma_same_magnitude(x: u64, y: u64)
    requires
        x < SIGN,
        y < SIGN,
    ensures
        (x < y) <==> magnitude(x) < magnitude(y),
        (x == y) <==> magnitude(x) == magnitude(y),
{
    if x < y {
        lemma_order(x, y);
    } else if y < x {
        lemma_order(y, x);
    }
}

/// Whether a pattern stands for a number.
pub fn is_finite(b: u64) -> (r: bool)
    ensures
        r == finite(b),
{
    (b % SIGN) / STEP != 2047
}

/// A number is its fraction field behind a leading one, with as many of the bits behind the
/// point as its exponent field is below 1075: `p / q`, within `e` units of the last bit.
pub proof fn law_value_of_a_pattern(b: u64, k: nat, p: int, q: int, e: int)
    requires
        b < SIGN,
        1 <= exponent(b),
        exponent(b) + k == 1075,
        q > 0,
        -e <= q * (STEP + fraction(b)) - p * pow2(k) <= e,
    ensures
        -e * one() <= (q * value(b) - p * one()) * pow2(k) <= e * one(),
        e == 0 ==> q * value(b) == p * one(),
{
    let (m, x, c, u) = (
        (STEP + fraction(b)) as int,
        pow2((exponent(b) - 1) as nat) as int,
        pow2(k) as int,
        one() as int,
    );
    lemma_pow2_adds((exponent(b) - 1) as nat, k);
    lemma_pow2_pos(k);
    lemma_pow2_pos(1074);
    assert(value(b) == m * x);
    assert(x * c == u);
    let v = m * x;
    assert((q * v - p * u) * c == (q * m - p * c) * u) by (nonlinear_arith)
        requires
            v == m * x,
            x * c == u,
    ;
    let d = q * m - p * c;
    assert(-e * u <= d * u <= e * u) by (nonlinear_arith)
        requires
            -e <= d <= e,
            u > 0,
    ;
    if e == 0 {
        assert(q * v - p * u == 0) by (nonlinear_arith)
            requires
                (q * v - p * u) * c == 0,
                c > 0,
        ;
    }
}

/// Whether a pattern stands for no number at all.
pub open spec fn not_a_number(b: u64) -> bool {
    exponent(b) == 2047 && fraction(b) != 0
}

/// Whether a pattern stands for no number at all.
pub fn is_nan(b: u64) -> (r: bool)
    ensures
        r == not_a_number(b),
{
    (b % SIGN) / STEP == 2047 && b % STEP != 0
}

/// Compares two numbers. An infinity lies beyond all other numbers of its sign.
pub fn less(a: u64, b: u64) -> (r: bool)
    ensures
        r == (value(a) < value(b)),
{
    let (x, y): (u64, u64) = (a % SIGN, b % SIGN);
    proof {
        lemma_fields(a);
        lemma_fields(b);
        lemma_same_magnitude(x, y);
        lemma_same_magnitude(x, 0);
        lemma_same_magnitude(y, 0);
        lemma_fields(0);
    }
    if a >= SIGN {
        if b >= SIGN {
            y < x
        } else {
            x != 0 || y != 0
        }
    } else if b >= SIGN {
        false
    } else {
        x < y
    }
}

/// Compares the distances of two numbers from zero.
pub fn nearer_zero(a: u64, b: u64) -> (r: bool)
    ensures
        r == (magnitude(a) < magnitude(b)),
{
    proof {
        lemma_fields(a);
        lemma_fields(b);
        lemma_same_magnitude(a % SIGN, b % SIGN);
    }
    a % SIGN < b % SIGN
}

/// Twice a number that is not negative; its pattern may be past the finite ones.
pub fn twice(b: u64) -> (r: u64)
    requires
        b < SIGN,
        finite(b),
    ensures
        r < SIGN,
        value(r) == 2 * value(b),
{
    proof {
        lemma_fields(b);
    }
    if b < STEP {
        let r: u64 = 2 * b;
        proof {
            lemma_fields(r);
            lemma2_to64();
            if r >= STEP {
                assert(exponent(r) == 1 && fraction(r) == r - STEP);
                assert(pow2(0) == 1);
                assert(magnitude(r) == (STEP + fraction(r)) * 1);
            }
            assert(magnitude(r) == r);
            assert(magnitude(b) == b);
        }
        r
    } else {
        let r: u64 = b + STEP;
        proof {
            lemma_fields(r);
            let e = exponent(b);
            assert(exponent(r) == e + 1 && fraction(r) == fraction(b));
            lemma_pow2_unfold(e);
            let p = pow2((e - 1) as nat);
            assert(pow2(e) == 2 * p);
            let m = (STEP + fraction(b)) as nat;
            assert(magnitude(b) == m * p);
            assert(magnitude(r) == m * (2 * p));
            assert(m * (2 * p) == 2 * (m * p)) by (nonlinear_arith);
        }
        r
    }
}

/// The whole part of a number's distance from zero.
pub open spec fn whole_part(b: u64) -> nat {
    magnitude(b) / one()
}

/// Whether a number has no fractional part.
pub open spec fn is_whole(b: u64) -> bool {
    magnitude(b) % one() == 0
}

proof fn lemma_small(b: u64)
    requires
        exponent(b) < 1023,
    ensures
        magnitude(b) < one(),
{
    lemma_fields(b);
    let e = exponent(b);
    lemma2_to64();
    lemma2_to64_rest();
    assert(pow2(53) == 2 * STEP);
    if e == 0 {
        lemma_pow2_strictly_increases(53, 1074);
    } else {
        let p = pow2((e - 1) as nat);
        lemma_pow2_pos((e - 1) as nat);
        lemma_pow2_adds(53, (e - 1) as nat);
        if e < 1022 {
            lemma_pow2_strictly_increases((52 + e) as nat, 1074);
        }
        assert(magnitude(b) < 2 * STEP * p) by (nonlinear_arith)
            requires
                magnitude(b) == (STEP + fraction(b)) * p,
                fraction(b) < STEP,
                p > 0,
        ;
    }
}

proof fn lemma_large(b: u64)
    requires
        exponent(b) > 1074,
    ensures
        magnitude(b) >= STEP * one(),
{
    lemma_fields(b);
    let p = pow2((exponent(b) - 1) as nat);
    if exponent(b) > 1075 {
        lemma_pow2_strictly_increases(1074, (exponent(b) - 1) as nat);
    }
    assert(magnitude(b) >= STEP * one()) by (nonlinear_arith)
        requires
            magnitude(b) == (STEP + fraction(b)) * p,
            p >= one(),
            fraction(b) >= 0,
    ;
}

proof fn lemma_middle(b: u64)
    requires
        1023 <= exponent(b) <= 1074,
    ensures
        ({
            let d = pow2((1075 - exponent(b)) as nat);
            let s = STEP + fraction(b);
            &&& whole_part(b) == s / d as int
            &&& is_whole(b) <==> s % d as int == 0
        }),
{
    let e = exponent(b);
    let c = pow2((e - 1) as nat) as int;
    let d = pow2((1075 - e) as nat) as int;
    let s = STEP + fraction(b);
    lemma_pow2_pos((e - 1) as nat);
    lemma_pow2_pos((1075 - e) as nat);
    lemma_pow2_adds((e - 1) as nat, (1075 - e) as nat);
    assert(one() == c * d);
    assert(magnitude(b) == c * s) by (nonlinear_arith)
        requires
            magnitude(b) == s * c,
    ;
    assert(c * s >= 0) by (nonlinear_arith)
        requires
            c > 0,
            s >= 0,
    ;
    lemma_div_multiples_vanish(s, c);
    lemma_div_denominator(c * s, c, d);
    lemma_truncate_middle(s, c, d);
    assert((c * (s % d) == 0) <==> (s % d == 0)) by (nonlinear_arith)
        requires
            c > 0,
    ;
}

fn power_of_two(k: u64) -> (p: u64)
    requires
        k <= 52,
    ensures
        p == pow2(k as nat),
        p > 0,
{
    let mut p: u64 = 1;
    let mut i: u64 = 0;
    proof {
        lemma2_to64();
    }
    while i < k
        invariant
            i <= k <= 52,
            p == pow2(i as nat),
            p > 0,
        decreases k - i,
    {
        proof {
            lemma_pow2_unfold((i + 1) as nat);
            lemma2_to64();
            lemma2_to64_rest();
            lemma_pow2_strictly_increases(i as nat, 52);
        }
        p = 2 * p;
        i += 1;
    }
    p
}

/// The whole part of a number's distance from zero, if it is less than 2^52.
pub fn whole(b: u64) -> (r: Option<u64>)
    ensures
        r is Some <==> whole_part(b) < STEP,
        r matches Some(n) ==> n == whole_part(b),
{
    let e: u64 = (b % SIGN) / STEP;
    proof {
        lemma_pow2_pos(1074);
    }
    if e < 1023 {
        proof {
            lemma_small(b);
            lemma_basic_div(magnitude(b) as int, one() as int);
        }
        Some(0)
    } else if e > 1074 {
        proof {
            lemma_large(b);
            lemma_div_is_ordered(
                (STEP * one()) as int,
                magnitude(b) as int,
                one() as int,
            );
            lemma_div_multiples_vanish(STEP as int, one() as int);
            assert(one() * STEP == STEP * one()) by (nonlinear_arith);
        }
        None
    } else {
        let s: u64 = STEP + b % STEP;
        let k: u64 = 1075 - e;
        proof {
            lemma_middle(b);
            lemma_pow2_pos(k as nat);
            if k > 1 {
                lemma_pow2_strictly_increases(1, k as nat);
            }
            lemma2_to64();
            lemma_div_is_ordered_by_denominator(s as int, 2, pow2(k as nat) as int);
        }
        Some(s / power_of_two(k))
    }
}

/// Whether a number below 2^52 has no fractional part.
pub fn no_fraction(b: u64) -> (r: bool)
    requires
        whole_part(b) < STEP,
    ensures
        r == is_whole(b),
{
    let e: u64 = (b % SIGN) / STEP;
    proof {
        lemma_pow2_pos(1074);
        lemma_fields(b);
        lemma_fields(0);
        lemma_same_magnitude(b % SIGN, 0);
    }
    if e < 1023 {
        proof {
            lemma_small(b);
            lemma_small_mod(magnitude(b), one());
        }
        b % SIGN == 0
    } else {
        proof {
            if e > 1074 {
                lemma_large(b);
                lemma_div_is_ordered(
                    (STEP * one()) as int,
                    magnitude(b) as int,
                    one() as int,
                );
                lemma_div_multiples_vanish(STEP as int, one() as int);
                assert(one() * STEP == STEP * one()) by (nonlinear_arith);
            }
            assert(e <= 1074);
            lemma_middle(b);
        }
        let s: u64 = STEP + b % STEP;
        let k: u64 = 1075 - e;
        s % power_of_two(k) == 0
    }
}

/// Whether a number lies between zero and a bound.
pub open spec fn in_span(b: u64, hi: nat) -> bool {
    finite(b) && 0 <= value(b) <= hi * one()
}

/// Whether a number lies between zero and a bound.
pub fn within(b: u64, hi: u64) -> (r: bool)
    requires
        hi < STEP,
    ensures
        r == in_span(b, hi as nat),
        r ==> whole_part(b) <= hi,
{
    proof {
        lemma_pow2_pos(1074);
        lemma_fields(b);
        lemma_fields(0);
        lemma_same_magnitude(b % SIGN, 0);
        let (m, u) = (magnitude(b) as int, one() as int);
        lemma_fundamental_div_mod(m, u);
        assert(m <= hi * u <==> m / u < hi || (m / u == hi && m % u == 0)) by (nonlinear_arith)
            requires
                m == u * (m / u) + m % u,
                0 <= m % u < u,
        ;
    }
    if !is_finite(b) || (b >= SIGN && b != SIGN) {
        return false;
    }
    match whole(b) {
        Some(n) => n < hi || (n == hi && no_fraction(b)),
        None => false,
    }
}

// ------------------------------------------------------------------- order
/// Whether `r` lists the places of the keys in ascending order: every place
/// once, lower keys first and equal keys in the order they come in.
pub open spec fn is_ascending(keys: Seq<u64>, r: Seq<usize>) -> bool {
    &&& r.len() == keys.len()
    &&& forall|i: int| 0 <= i < r.len() ==> (#[trigger] r[i]) < keys.len()
    &&& forall|i: int, j: int|
        0 <= i < j < r.len() ==> comes_before(keys, #[trigger] r[i] as int, #[trigger] r[j] as int)
}

pub open spec fn comes_before(keys: Seq<u64>, a: int, b: int) -> bool {
    value(keys[a]) < value(keys[b]) || (value(keys[a]) == value(keys[b]) && a < b)
}

/// Whether places come in ascending order of the numbers they hold.
spec fn ordered(keys: Seq<u64>, r: Seq<usize>) -> bool {
    forall|j: int, k: int|
        0 <= j < k < r.len() ==> comes_before(keys, #[trigger] r[j] as int, #[trigger] r[k] as int)
}

/// Whether places lie within a range.
spec fn ranging(r: Seq<usize>, lo: int, hi: int) -> bool {
    forall|k: int| 0 <= k < r.len() ==> lo <= (#[trigger] r[k]) < hi
}

/// Joins the ordered places of two neighbouring ranges.
fn merge(
    keys: &[u64],
    a: &Vec<usize>,
    b: &Vec<usize>,
    Ghost(lo): Ghost<int>,
    Ghost(mid): Ghost<int>,
    Ghost(hi): Ghost<int>,
) -> (r: Vec<usize>)
    requires
        0 <= lo <= mid <= hi <= keys@.len(),
        ordered(keys@, a@),
        ordered(keys@, b@),
        ranging(a@, lo, mid),
        ranging(b@, mid, hi),
        a@.len() + b@.len() <= usize::MAX,
    ensures
        ordered(keys@, r@),
        r@.len() == a@.len() + b@.len(),
        ranging(r@, lo, hi),
{
    let mut r: Vec<usize> = Vec::new();
    let mut i: usize = 0;
    let mut j: usize = 0;
    while i < a.len() || j < b.len()
        invariant
            0 <= lo <= mid <= hi <= keys@.len(),
            ordered(keys@, a@),
            ordered(keys@, b@),
            ranging(a@, lo, mid),
            ranging(b@, mid, hi),
            a@.len() + b@.len() <= usize::MAX,
            i <= a@.len(),
            j <= b@.len(),
            r@.len() == i + j,
            ordered(keys@, r@),
            forall|x: int, k: int|
                0 <= x < r@.len() && i <= k < a@.len() ==> comes_before(
                    keys@,
                    #[trigger] r@[x] as int,
                    #[trigger] a@[k] as int,
                ),
            forall|x: int, k: int|
                0 <= x < r@.len() && j <= k < b@.len() ==> comes_before(
                    keys@,
                    #[trigger] r@[x] as int,
                    #[trigger] b@[k] as int,
                ),
            ranging(r@, lo, hi),
        decreases a@.len() - i + b@.len() - j,
    {
        let first: bool = j >= b.len() || (i < a.len() && !less(keys[b[j]], keys[a[i]]));
        if first {
            let x: usize = a[i];
            assert forall|k: int| j <= k < b@.len() implies comes_before(
                keys@,
                x as int,
                #[trigger] b@[k] as int,
            ) by {
                assert(comes_before(keys@, x as int, b@[j as int] as int));
                if k > j {
                    assert(comes_before(keys@, b@[j as int] as int, b@[k] as int));
                }
            }
            r.push(x);
            i += 1;
        } else {
            let x: usize = b[j];
            assert forall|k: int| i <= k < a@.len() implies comes_before(
                keys@,
                x as int,
                #[trigger] a@[k] as int,
            ) by {
                assert(comes_before(keys@, x as int, a@[i as int] as int));
                if k > i {
                    assert(comes_before(keys@, a@[i as int] as int, a@[k] as int));
                }
            }
            r.push(x);
            j += 1;
        }
    }
    r
}

/// The places of a range in ascending order.
fn ascending_in(keys: &[u64], lo: usize, hi: usize) -> (r: Vec<usize>)
    requires
        lo <= hi <= keys@.len(),
    ensures
        ordered(keys@, r@),
        r@.len() == hi - lo,
        ranging(r@, lo as int, hi as int),
    decreases hi - lo,
{
    if hi - lo == 0 {
        return Vec::new();
    }
    if hi - lo == 1 {
        let mut r: Vec<usize> = Vec::new();
        r.push(lo);
        return r;
    }
    let mid: usize = lo + (hi - lo) / 2;
    let a: Vec<usize> = ascending_in(keys, lo, mid);
    let b: Vec<usize> = ascending_in(keys, mid, hi);
    merge(keys, &a, &b, Ghost(lo as int), Ghost(mid as int), Ghost(hi as int))
}

/// The places of the keys in ascending order.
pub fn ascending(keys: &[u64]) -> (r: Vec<usize>)
    ensures
        is_ascending(keys@, r@),
{
    ascending_in(keys, 0, keys.len())
}

/// The ascending order is the only one of its kind.
pub proof fn law_ascending_order_is_unique(keys: Seq<u64>, a: Seq<usize>, b: Seq<usize>)
    requires
        is_ascending(keys, a),
        is_ascending(keys, b),
        keys.len() <= usize::MAX,
    ensures
        a == b,
{
    let n = keys.len() as int;
    lemma_all_places(keys, a);
    lemma_all_places(keys, b);
    assert forall|i: int| 0 <= i < n implies a[i] == b[i] by {
        lemma_same_prefix(keys, a, b, i);
    }
    assert(a =~= b);
}

proof fn lemma_same_prefix(keys: Seq<u64>, a: Seq<usize>, b: Seq<usize>, i: int)
    requires
        is_ascending(keys, a),
        is_ascending(keys, b),
        forall|p: usize| p < keys.len() ==> a.contains(p),
        forall|p: usize| p < keys.len() ==> b.contains(p),
        0 <= i < keys.len(),
    ensures
        forall|k: int| 0 <= k <= i ==> a[k] == b[k],
    decreases i,
{
    if i > 0 {
        lemma_same_prefix(keys, a, b, i - 1);
    }
    let (x, y) = (a[i], b[i]);
    if x != y {
        assert(b.contains(x) && a.contains(y));
        let j = choose|j: int| 0 <= j < b.len() && b[j] == x;
        let k = choose|k: int| 0 <= k < a.len() && a[k] == y;
        if j < i {
            assert(a[j] == x);
            assert(comes_before(keys, a[j] as int, a[i] as int));
        }
        if k < i {
            assert(b[k] == y);
            assert(comes_before(keys, b[k] as int, b[i] as int));
        }
        assert(comes_before(keys, b[i] as int, b[j] as int));
        assert(comes_before(keys, a[i] as int, a[k] as int));
    }
}

/// A list of `n` different places below `n` holds every place.
proof fn lemma_all_places(keys: Seq<u64>, r: Seq<usize>)
    requires
        is_ascending(keys, r),
        keys.len() <= usize::MAX,
    ensures
        forall|p: usize| p < keys.len() ==> r.contains(p),
{
    assert forall|i: int, j: int| 0 <= i < j < r.len() implies r[i] != r[j] by {
        assert(comes_before(keys, r[i] as int, r[j] as int));
    }
    let n = keys.len();
    let places = Set::<usize>::new(|p: usize| p < n);
    let listed = r.to_set();
    r.unique_seq_to_set();
    assert(listed.len() == n);
    lemma_count_below(n);
    assert(listed.subset_of(places)) by {
        assert forall|p: usize| listed.contains(p) implies places.contains(p) by {
            let i = choose|i: int| 0 <= i < r.len() && r[i] == p;
            assert(r[i] < n);
        }
    }
    vstd::set_lib::lemma_subset_equality(listed, places);
    assert forall|p: usize| p < n implies r.contains(p) by {
        assert(listed.contains(p));
    }
}

proof fn lemma_count_below(n: nat)
    requires
        n <= usize::MAX,
    ensures
        Set::<usize>::new(|p: usize| p < n).finite(),
        Set::<usize>::new(|p: usize| p < n).len() == n,
    decreases n,
{
    let s = Set::<usize>::new(|p: usize| p < n);
    if n == 0 {
        assert(s =~= Set::empty());
    } else {
        lemma_count_below((n - 1) as nat);
        let t = Set::<usize>::new(|p: usize| p < n - 1);
        assert(s =~= t.insert((n - 1) as usize));
    }
}

/// The number at the middle of a list in ascending order; the higher one of an
/// even number.
pub fn median(v: &[u64]) -> (r: Option<u64>)
    ensures
        r is None <==> v@.len() == 0,
        r matches Some(m) ==> exists|o: Seq<usize>| #[trigger]
            is_ascending(v@, o) && m == v@[o[(v@.len() / 2) as int] as int],
{
    let n: usize = v.len();
    if n == 0 {
        return None;
    }
    let o: Vec<usize> = ascending(v);
    Some(v[o[n / 2]])
}

} // verus!
