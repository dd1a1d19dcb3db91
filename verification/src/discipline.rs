//! Plausibility of the clock discipline: when a measured residual is not to
//! be trusted.
use std::collections::VecDeque;
use vstd::prelude::*;
use vstd::arithmetic::power2::{lemma2_to64, lemma2_to64_rest, pow2};
use crate::double::{is_nan, law_value_of_a_pattern, less, not_a_number, one, value};

verus! {

/// Number of channel counts that are remembered.
pub const GATE_WINDOW: usize = 10;

/// Why a residual is refused.
#[derive(Debug, Clone, Copy, PartialEq, Eq, Structural)]
pub enum Refusal {
    /// the number of locked channels fell to less than half
    Collapsing,
    /// a geostationary channel locked only just now
    FreshLock,
    /// the residual jumped further than the oscillator can slew
    Jump,
    /// the measurements are old
    Stale,
}

pub open spec fn reason_of(r: Refusal) -> Seq<char> {
    match r {
        Refusal::Collapsing => "locked-channel count collapsing"@,
        Refusal::FreshLock => "WAAS/GEO channel below fresh-lock threshold"@,
        Refusal::Jump => "residual jump beyond plausible TCXO slew"@,
        Refusal::Stale => "measurement inputs stale"@,
    }
}

impl Refusal {
    /// The reason in words.
    pub fn reason(&self) -> (s: &'static str)
        ensures
            s@ == reason_of(*self),
    {
        match self {
            Refusal::Collapsing => "locked-channel count collapsing",
            Refusal::FreshLock => "WAAS/GEO channel below fresh-lock threshold",
            Refusal::Jump => "residual jump beyond plausible TCXO slew",
            Refusal::Stale => "measurement inputs stale",
        }
    }
}

/// Ages in seconds below which a lock is fresh and above which measurements are
/// stale, and the largest plausible step of the residual in ppm: 30, 10 and 0.15
/// as doubles.
pub const GATE_FRESH_LOCK_S: u64 = 0x403E_0000_0000_0000;

pub const GATE_STALE_S: u64 = 0x4024_0000_0000_0000;

pub const GATE_MAX_SLEW_PPM: u64 = 0x3FC3_3333_3333_3333;

/// A lock is fresh for 30 s, measurements are old after 10 s, and the greatest step is the
/// double nearest to 0.15.
pub proof fn law_limits_of_the_gate()
    ensures
        value(GATE_FRESH_LOCK_S) == 30 * one(),
        value(GATE_STALE_S) == 10 * one(),
        -10 * one() <= (20 * value(GATE_MAX_SLEW_PPM) - 3 * one()) * pow2(55) <= 10 * one(),
{
    lemma2_to64();
    lemma2_to64_rest();
    law_value_of_a_pattern(GATE_FRESH_LOCK_S, 48, 30, 1, 0);
    law_value_of_a_pattern(GATE_STALE_S, 49, 10, 1, 0);
    law_value_of_a_pattern(GATE_MAX_SLEW_PPM, 55, 3, 20, 10);
}

/// The last counts of locked channels, the latest last, and the last residual
/// that was accepted, as a double.
#[derive(Debug)]
pub struct PlausibilityGate {
    pub locked_hist: VecDeque<usize>,
    pub prev_resid: Option<u64>,
}

/// The last ten of a list, or all of a shorter one.
pub open spec fn window(s: Seq<usize>) -> Seq<usize> {
    if s.len() > 10 {
        s.skip(s.len() - 10)
    } else {
        s
    }
}

/// Largest of the first `n` counts; zero if there is none.
pub open spec fn largest(s: Seq<usize>, n: int) -> int
    decreases n,
{
    if n <= 0 {
        0
    } else if s[n - 1] > largest(s, n - 1) {
        s[n - 1] as int
    } else {
        largest(s, n - 1)
    }
}

/// Whether the count of locked channels is collapsing: the latest is below the
/// largest remembered one, and below half of it or below two.
pub open spec fn collapsing(s: Seq<usize>) -> bool {
    let now = if s.len() > 0 { s.last() as int } else { 0 };
    let top = largest(s, s.len() as int);
    now < top && (2 * now < top || now < 2)
}

/// Whether one double is a number above another.
pub open spec fn above(a: u64, b: u64) -> bool {
    !not_a_number(a) && value(a) > value(b)
}

/// Whether a channel locked only just now.
pub open spec fn is_fresh(lock_s: u64) -> bool {
    !not_a_number(lock_s) && value(lock_s) < value(GATE_FRESH_LOCK_S)
}

pub open spec fn any_fresh(lock_s: Seq<u64>) -> bool {
    exists|i: int| 0 <= i < lock_s.len() && is_fresh(#[trigger] lock_s[i])
}

/// The first objection in a fixed order, if there is one. `step` is the distance
/// of the residual from the last one accepted.
pub open spec fn judgement(g: PlausibilityGate, step: u64, lock_s: Seq<u64>, age_s: u64) -> Result<(), Refusal> {
    if collapsing(g.locked_hist@) {
        Err(Refusal::Collapsing)
    } else if any_fresh(lock_s) {
        Err(Refusal::FreshLock)
    } else if g.prev_resid is Some && above(step, GATE_MAX_SLEW_PPM) {
        Err(Refusal::Jump)
    } else if above(age_s, GATE_STALE_S) {
        Err(Refusal::Stale)
    } else {
        Ok(())
    }
}

fn is_above(a: u64, b: u64) -> (r: bool)
    ensures
        r == above(a, b),
{
    !is_nan(a) && less(b, a)
}

fn has_fresh(lock_s: &[u64]) -> (r: bool)
    ensures
        r == any_fresh(lock_s@),
{
    let n: usize = lock_s.len();
    let mut i: usize = 0;
    while i < n
        invariant
            n == lock_s@.len(),
            i <= n,
            forall|j: int| 0 <= j < i ==> !is_fresh(#[trigger] lock_s@[j]),
        decreases n - i,
    {
        if !is_nan(lock_s[i]) && less(lock_s[i], GATE_FRESH_LOCK_S) {
            assert(is_fresh(lock_s@[i as int]));
            return true;
        }
        i += 1;
    }
    false
}

impl PlausibilityGate {
    pub open spec fn wf(self) -> bool {
        self.locked_hist@.len() <= 10
    }

    /// No counts yet.
    pub fn new() -> (g: Self)
        ensures
            g.locked_hist@.len() == 0,
            g.prev_resid is None,
            g.wf(),
    {
        PlausibilityGate { locked_hist: VecDeque::new(), prev_resid: None }
    }

    /// Takes in a count of locked channels.
    pub fn observe_locked(&mut self, n: usize)
        requires
            old(self).wf(),
        ensures
            final(self).wf(),
            final(self).locked_hist@ == window(old(self).locked_hist@.push(n)),
            final(self).prev_resid == old(self).prev_resid,
    {
        let ghost before = self.locked_hist@;
        self.locked_hist.push_back(n);
        if self.locked_hist.len() > GATE_WINDOW {
            let first: Option<usize> = self.locked_hist.pop_front();
            assert(self.locked_hist@ =~= window(before.push(n)));
        }
    }

    /// Judges a residual. `step` is its distance from the last one accepted,
    /// `lock_s` the lock times of the geostationary channels, and `age_s` the age
    /// of the measurements, in seconds; all are doubles. Only a residual that is
    /// accepted is remembered.
    pub fn check(&mut self, resid: u64, step: u64, lock_s: &[u64], age_s: u64) -> (r: Result<(), Refusal>)
        ensures
            r == judgement(*old(self), step, lock_s@, age_s),
            final(self).locked_hist == old(self).locked_hist,
            final(self).prev_resid == (if r is Ok {
                Some(resid)
            } else {
                old(self).prev_resid
            }),
    {
        let n: usize = self.locked_hist.len();
        let now: usize = if n > 0 { self.locked_hist[n - 1] } else { 0 };
        let mut top: usize = 0;
        let mut i: usize = 0;
        while i < n
            invariant
                n == self.locked_hist@.len(),
                i <= n,
                top == largest(self.locked_hist@, i as int),
                *self == *old(self),
            decreases n - i,
        {
            if self.locked_hist[i] > top {
                top = self.locked_hist[i];
            }
            i += 1;
        }
        if now < top && (now < top - now || now < 2) {
            return Err(Refusal::Collapsing);
        }
        if has_fresh(lock_s) {
            return Err(Refusal::FreshLock);
        }
        if self.prev_resid.is_some() && is_above(step, GATE_MAX_SLEW_PPM) {
            return Err(Refusal::Jump);
        }
        if is_above(age_s, GATE_STALE_S) {
            return Err(Refusal::Stale);
        }
        self.prev_resid = Some(resid);
        Ok(())
    }
}

proof fn lemma_largest_is_one(s: Seq<usize>, n: int)
    requires
        0 <= n <= s.len(),
    ensures
        forall|i: int| 0 <= i < n ==> #[trigger] s[i] <= largest(s, n),
        largest(s, n) > 0 ==> exists|i: int| 0 <= i < n && #[trigger] s[i] == largest(s, n),
        largest(s, n) >= 0,
    decreases n,
{
    if n > 0 {
        lemma_largest_is_one(s, n - 1);
        assert(s[n - 1] <= largest(s, n));
        if largest(s, n) > 0 && largest(s, n) == largest(s, n - 1) {
            let i = choose|i: int| 0 <= i < n - 1 && #[trigger] s[i] == largest(s, n - 1);
            assert(s[i] == largest(s, n));
        }
    }
}

/// The count of locked channels collapses if one of the last counts was greater, and the
/// present one is less than half of it or less than two.
pub proof fn law_when_counts_collapse(s: Seq<usize>)
    requires
        s.len() > 0,
    ensures
        collapsing(s) <==> exists|i: int|
            0 <= i < s.len() && s.last() < #[trigger] s[i] && (2 * s.last() < s[i] || s.last() < 2),
{
    let n = s.len() as int;
    lemma_largest_is_one(s, n);
    if collapsing(s) {
        let i = choose|i: int| 0 <= i < n && #[trigger] s[i] == largest(s, n);
        assert(s.last() < s[i]);
    }
}

/// A correction passes exactly if the counts do not collapse, no geostationary channel is
/// fresh, the step is not too great after an earlier correction and the measurements are not
/// old; of several reasons against it the first of these is given.
pub proof fn law_order_of_the_reasons(g: PlausibilityGate, step: u64, lock_s: Seq<u64>, age_s: u64)
    ensures
        ({
            let r = judgement(g, step, lock_s, age_s);
            let collapse = collapsing(g.locked_hist@);
            let fresh = exists|i: int|
                0 <= i < lock_s.len() && !not_a_number(#[trigger] lock_s[i]) && value(lock_s[i]) < value(
                    0x403E_0000_0000_0000,
                );
            let jump = g.prev_resid is Some && above(step, 0x3FC3_3333_3333_3333);
            let stale = above(age_s, 0x4024_0000_0000_0000);
            &&& r is Ok <==> !(collapse || fresh || jump || stale)
            &&& r == Err::<(), Refusal>(Refusal::Collapsing) <==> collapse
            &&& r == Err::<(), Refusal>(Refusal::FreshLock) <==> fresh && !collapse
            &&& r == Err::<(), Refusal>(Refusal::Jump) <==> jump && !fresh && !collapse
            &&& r == Err::<(), Refusal>(Refusal::Stale) <==> stale && !jump && !fresh && !collapse
        }),
{
    assert forall|i: int| 0 <= i < lock_s.len() implies is_fresh(#[trigger] lock_s[i]) == (!not_a_number(lock_s[i])
        && value(lock_s[i]) < value(0x403E_0000_0000_0000)) by {}
}

/// A count that does not fall is never taken for a collapse.
pub proof fn law_steady_counts_pass(s: Seq<usize>)
    requires
        forall|i: int| 0 <= i < s.len() ==> #[trigger] s[i] <= s.last(),
    ensures
        !collapsing(s),
{
    if s.len() > 0 {
        lemma_largest(s, s.len() as int, s.last() as int);
    }
}

proof fn lemma_largest(s: Seq<usize>, n: int, m: int)
    requires
        n <= s.len(),
        0 <= m,
        forall|i: int| 0 <= i < s.len() ==> #[trigger] s[i] <= m,
    ensures
        largest(s, n) <= m,
    decreases n,
{
    if n > 0 {
        lemma_largest(s, n - 1, m);
        assert(s[n - 1] <= m);
    }
}

} // verus!
