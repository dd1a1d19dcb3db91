//! Rejection of bad measurements in a position fix.
use vstd::prelude::*;
use vstd::arithmetic::power2::{lemma2_to64, lemma2_to64_rest};
use crate::double::{law_value_of_a_pattern, one, value};
use crate::pick::{beyond, highest_beyond};

verus! {

/// Least number of measurements of a fix.
pub const MIN_SATS: usize = 4;

/// Least number of measurements of a fix with two systems' clocks.
pub const MIN_SATS_MIXED: usize = 5;

/// Number of measurements among the first `n` that are of a system.
pub open spec fn count_of(systems: Seq<u8>, system: u8, n: int) -> nat
    decreases n,
{
    if n <= 0 {
        0
    } else {
        count_of(systems, system, n - 1) + (if systems[n - 1] == system { 1nat } else { 0nat })
    }
}

/// Number of GPS and of BeiDou measurements, when there are enough of both for a
/// mixed fix.
pub fn mixed_counts(systems: &[u8]) -> (r: Option<(usize, usize)>)
    ensures
        r is Some <==> systems@.len() >= 5 && count_of(systems@, 0, systems@.len() as int) > 0 && count_of(
            systems@,
            1,
            systems@.len() as int,
        ) > 0,
        r matches Some(c) ==> c.0 == count_of(systems@, 0, systems@.len() as int) && c.1 == count_of(
            systems@,
            1,
            systems@.len() as int,
        ),
{
    let n: usize = systems.len();
    let mut gps: usize = 0;
    let mut bds: usize = 0;
    let mut i: usize = 0;
    while i < n
        invariant
            n == systems@.len(),
            i <= n,
            gps <= i,
            bds <= i,
            gps == count_of(systems@, 0, i as int),
            bds == count_of(systems@, 1, i as int),
        decreases n - i,
    {
        if systems[i] == 0 {
            gps += 1;
        }
        if systems[i] == 1 {
            bds += 1;
        }
        i += 1;
    }
    if n < MIN_SATS_MIXED || gps == 0 || bds == 0 {
        None
    } else {
        Some((gps, bds))
    }
}

/// Measurements still in a fix and those dropped, by number.
pub struct Rejection {
    pub kept: Vec<usize>,
    pub dropped: Vec<usize>,
}

pub open spec fn numbers(n: nat) -> Seq<usize> {
    Seq::new(n, |i: int| i as usize)
}

impl Rejection {
    /// Number of measurements, kept or dropped.
    pub open spec fn total(self) -> nat {
        self.kept@.len() + self.dropped@.len()
    }

    /// Whether each measurement is either kept or dropped, and the kept ones are
    /// in order.
    pub open spec fn wf(self) -> bool {
        let n = self.total();
        &&& forall|i: int, j: int| 0 <= i < j < self.kept@.len() ==> self.kept@[i] < self.kept@[j]
        &&& self.dropped@.no_duplicates()
        &&& forall|m: usize| #[trigger] self.kept@.contains(m) ==> m < n && !self.dropped@.contains(m)
        &&& forall|m: usize| #[trigger] self.dropped@.contains(m) ==> m < n
        &&& forall|m: usize| m < n ==> #[trigger] self.kept@.contains(m) || self.dropped@.contains(m)
    }

    /// All `n` measurements are in.
    pub fn new(n: usize) -> (r: Rejection)
        ensures
            r.kept@ == numbers(n as nat),
            r.dropped@.len() == 0,
            r.wf(),
    {
        let mut kept: Vec<usize> = Vec::new();
        let mut i: usize = 0;
        while i < n
            invariant
                i <= n,
                kept@ == numbers(i as nat),
            decreases n - i,
        {
            kept.push(i);
            i += 1;
            assert(kept@ =~= numbers(i as nat));
        }
        assert forall|m: usize| m < n implies #[trigger] kept@.contains(m) by {
            assert(kept@[m as int] == m);
        }
        assert forall|m: usize| #[trigger] kept@.contains(m) implies m < n by {
            assert(kept@[kept@.index_of(m)] == m);
        }
        let dropped: Vec<usize> = Vec::new();
        Rejection { kept, dropped }
    }

    /// Drops the worst measurement, given by its place among the kept ones when
    /// its residual is beyond the threshold, and says whether one was dropped.
    /// None is when there are no more than `least` left, or `max_drops` are
    /// dropped already.
    pub fn drop_worst(&mut self, worst: Option<usize>, least: usize, max_drops: usize) -> (more: bool)
        requires
            old(self).wf(),
            worst matches Some(p) ==> p < old(self).kept@.len(),
        ensures
            final(self).wf(),
            final(self).total() == old(self).total(),
            more == (worst is Some && old(self).kept@.len() > least && old(self).dropped@.len() < max_drops),
            !more ==> *final(self) == *old(self),
            more ==> final(self).kept@ == old(self).kept@.remove(worst->0 as int) && final(self).dropped@
                == old(self).dropped@.push(old(self).kept@[worst->0 as int]),
    {
        if self.kept.len() <= least || self.dropped.len() >= max_drops {
            return false;
        }
        match worst {
            None => false,
            Some(p) => {
                let ghost k0 = self.kept@;
                let ghost d0 = self.dropped@;
                let ghost n = self.total();
                let m: usize = self.kept.remove(p);
                self.dropped.push(m);
                proof {
                    let k1 = self.kept@;
                    let d1 = self.dropped@;
                    assert(k0.contains(m)) by {
                        assert(k0[p as int] == m);
                    }
                    assert(!d0.contains(m));
                    assert forall|i: int, j: int| 0 <= i < j < k1.len() implies k1[i] < k1[j] by {
                        let a = if i < p { i } else { i + 1 };
                        let b = if j < p { j } else { j + 1 };
                        assert(k0[a] < k0[b]);
                    }
                    assert forall|x: usize| #[trigger] d1.contains(x) <==> d0.contains(x) || x == m by {
                        if d0.contains(x) {
                            assert(d1[d0.index_of(x)] == x);
                        }
                        if x == m {
                            assert(d1[d0.len() as int] == x);
                        }
                        if d1.contains(x) && x != m {
                            assert(d0[d1.index_of(x)] == x);
                        }
                    }
                    assert forall|x: usize| #[trigger] k1.contains(x) <==> k0.contains(x) && x != m by {
                        if k1.contains(x) {
                            let i = k1.index_of(x);
                            let a = if i < p { i } else { i + 1 };
                            assert(k0[a] == x);
                            if a < p {
                                assert(k0[a] < k0[p as int]);
                            } else {
                                assert(k0[p as int] < k0[a]);
                            }
                        }
                        if k0.contains(x) && x != m {
                            let a = k0.index_of(x);
                            assert(k0[a] == x);
                            assert(k1[if a < p { a } else { a - 1 }] == x);
                        }
                    }
                    assert forall|i: int, j: int| 0 <= i < d1.len() && 0 <= j < d1.len() && i != j implies d1[i] != d1[j] by {
                        if i == d0.len() {
                            if d0[j] == m {
                                assert(d0.contains(m));
                            }
                        } else if j == d0.len() {
                            if d0[i] == m {
                                assert(d0.contains(m));
                            }
                        } else {
                            assert(d0[i] != d0[j]);
                        }
                    }
                    assert forall|x: usize| x < n implies #[trigger] k1.contains(x) || d1.contains(x) by {
                        assert(k0.contains(x) || d0.contains(x));
                        assert(d1.contains(x) <==> d0.contains(x) || x == m);
                    }
                }
                true
            },
        }
    }
}

/// Weighted residual in metres beyond which a measurement is bad: 1000 as a
/// double.
pub const REJECT_THRESH_M: u64 = 0x408F_4000_0000_0000;

/// A residual is too great beyond 1000 m.
pub proof fn law_greatest_residual()
    ensures
        value(REJECT_THRESH_M) == 1000 * one(),
{
    lemma2_to64();
    lemma2_to64_rest();
    law_value_of_a_pattern(REJECT_THRESH_M, 43, 1000, 1, 0);
}

/// The place of the worst measurement, if its residual is beyond the threshold;
/// of equally bad ones the first. Residuals are doubles.
pub fn worst(resid: &[u64]) -> (r: Option<usize>)
    ensures
        r is None ==> forall|i: int| 0 <= i < resid@.len() ==> !beyond(#[trigger] resid@[i], REJECT_THRESH_M),
        r matches Some(w) ==> w < resid@.len() && beyond(resid@[w as int], REJECT_THRESH_M) && (forall|i: int|
            0 <= i < resid@.len() && beyond(#[trigger] resid@[i], REJECT_THRESH_M) ==> value(resid@[i]) <= value(
                resid@[w as int],
            )) && (forall|i: int|
            0 <= i < w && beyond(#[trigger] resid@[i], REJECT_THRESH_M) ==> value(resid@[i]) < value(
                resid@[w as int],
            )),
{
    highest_beyond(resid, REJECT_THRESH_M)
}

} // verus!
