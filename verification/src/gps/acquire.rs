//! Places on the circle of code phases.
use vstd::prelude::*;
use vstd::arithmetic::div_mod::lemma_fundamental_div_mod_converse;

verus! {

/// Distance of two of `n` places on a circle.
pub open spec fn distance(i: int, c: int, n: int) -> int {
    let d = if i >= c { i - c } else { c - i };
    if d <= n - d {
        d
    } else {
        n - d
    }
}

/// Offset from place `c` to place `i` the short way round.
pub fn circular_offset(i: usize, c: usize, n: usize) -> (d: i64)
    requires
        i < n,
        c < n,
        n <= 0x4000_0000_0000_0000,
    ensures
        d == i - c || d == i - c - n || d == i - c + n,
        (if i >= c { i - c } else { c - i }) <= n as int / 2 ==> d == i - c,
        (if d < 0 { -d } else { d as int }) == distance(i as int, c as int, n as int),
{
    let m: i64 = n as i64;
    let mut d: i64 = i as i64 - c as i64;
    if d > m / 2 {
        d -= m;
    }
    if d < -(m / 2) {
        d += m;
    }
    d
}

/// Places below `m` that lie further than `excl` from place `c`.
pub open spec fn far_places(c: int, n: int, excl: int, m: int) -> Seq<usize>
    decreases m,
{
    if m <= 0 {
        Seq::empty()
    } else if distance(m - 1, c, n) > excl {
        far_places(c, n, excl, m - 1).push((m - 1) as usize)
    } else {
        far_places(c, n, excl, m - 1)
    }
}

/// Places outside the main peak at place `c`, in order.
pub fn outside_peak(c: usize, n: usize, excl: i64) -> (v: Vec<usize>)
    requires
        c < n,
        n <= 0x4000_0000_0000_0000,
    ensures
        v@ == far_places(c as int, n as int, excl as int, n as int),
{
    let mut v: Vec<usize> = Vec::new();
    let mut i: usize = 0;
    while i < n
        invariant
            i <= n,
            c < n,
            n <= 0x4000_0000_0000_0000,
            v@ == far_places(c as int, n as int, excl as int, i as int),
        decreases n - i,
    {
        let d: i64 = circular_offset(i, c, n);
        let a: i64 = if d < 0 { -d } else { d };
        if a > excl {
            v.push(i);
        }
        i += 1;
    }
    v
}

/// The distance is the same both ways and never more than half the circle.
pub proof fn law_distance(i: int, c: int, n: int)
    requires
        0 <= i < n,
        0 <= c < n,
    ensures
        distance(i, c, n) == distance(c, i, n),
        0 <= 2 * distance(i, c, n) <= n,
        distance(i, c, n) == 0 <==> i == c,
{
}

/// Place that `shift` places of drift moved to place `i`.
pub fn drift_source(i: usize, shift: i64, n: usize) -> (r: usize)
    requires
        i < n,
        n <= 0x4000_0000_0000_0000,
        -0x1000_0000_0000_0000 <= shift <= 0x1000_0000_0000_0000,
    ensures
        r == (i - shift) % (n as int),
        r < n,
{
    let m: i64 = n as i64;
    let x: i64 = i as i64 - shift;
    if x >= 0 {
        (x % m) as usize
    } else {
        let y: i64 = -x;
        let back: i64 = y % m;
        let r: i64 = if back == 0 { 0 } else { m - back };
        proof {
            let q = y as int / m as int;
            vstd::arithmetic::div_mod::lemma_fundamental_div_mod(y as int, m as int);
            if back == 0 {
                assert(x == (-q) * m + 0) by (nonlinear_arith)
                    requires
                        y == m * q + 0,
                        x == -y,
                ;
                lemma_fundamental_div_mod_converse(x as int, m as int, -q, 0);
            } else {
                assert(x == (-q - 1) * m + r) by (nonlinear_arith)
                    requires
                        y == m * q + back,
                        x == -y,
                        r == m - back,
                ;
                lemma_fundamental_div_mod_converse(x as int, m as int, -q - 1, r as int);
            }
        }
        r as usize
    }
}

} // verus!
